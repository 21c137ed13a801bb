//! The orbit constraint solver: turns per-slot confidence distributions into
//! one permutation of the whole puzzle.
//!
//! Each orbit is solved as its own assignment problem: a piece placed at a
//! position with some orientation would show one color per sticker, and the
//! summed confidence of those colors is the placement's score. The
//! maximum-cost perfect matching picks one piece per position with its best
//! orientation; because the orbits partition the facelets, the composed
//! placements are proved to form a bijection. The aggregate confidence is
//! the best reachable placement total over the covered stickers, always in
//! `[0, CONF_ONE]`. Checking the result against the puzzle's full move
//! group is the outside group service's part; no such oracle exists here,
//! so the guarantee stops at the bijection and the orbit structure.

use vstd::prelude::*;

use crate::matching::{maximum_matching, mat_view, square, costs_bounded, is_perfect_matching, MAX_COST};
use crate::model::{is_perm, orbit_wf, GroupModel, Perm};
use crate::CONF_ONE;
use vstd::arithmetic::div_mod::{lemma_div_is_ordered, lemma_div_multiples_vanish};

verus! {

/// Confidence rows: one row per slot, one entry per color, all in
/// `[0, CONF_ONE]`.
pub open spec fn confidences_ok(conf: Seq<Vec<u64>>, slots: int, colors: int) -> bool {
    &&& conf.len() == slots
    &&& forall|s: int| 0 <= s < conf.len() ==> (#[trigger] conf[s])@.len() == colors
    &&& forall|s: int, c: int|
        0 <= s < conf.len() && 0 <= c < conf[s]@.len() ==> (#[trigger] conf[s]@[c]) <= CONF_ONE
}

proof fn lemma_mean_le(total: int, covered: int)
    requires
        1 <= covered,
        0 <= total <= covered * (CONF_ONE as int),
    ensures
        0 <= total / covered <= CONF_ONE as int,
{
    lemma_div_is_ordered(total, covered * (CONF_ONE as int), covered);
    lemma_div_multiples_vanish(CONF_ONE as int, covered);
    lemma_div_is_ordered(0, total, covered);
    assert(0int / covered == 0) by (nonlinear_arith)
        requires
            covered >= 1,
    ;
}

/// Confidence sum over the first `t` stickers of placing piece `pp` at
/// position `qpos` of orbit `ob` with orientation `o`: sticker `t2` of the
/// piece lands on the facelet at the position's cyclic index `t2 + o` and
/// would show the piece sticker's canonical color there.
pub open spec fn placement_score_upto(
    m: &GroupModel,
    conf: Seq<Vec<u64>>,
    ob: int,
    qpos: int,
    pp: int,
    o: int,
    t: int,
) -> int
    decreases t,
{
    if t <= 0 {
        0
    } else {
        let slen = m.orbits@[ob]@[0]@.len() as int;
        let shown = m.orbits@[ob]@[qpos]@[((t - 1) + o) % slen];
        let home = m.orbits@[ob]@[pp]@[t - 1];
        placement_score_upto(m, conf, ob, qpos, pp, o, t - 1) + conf[shown as int]@[
            m.facelet_colors@[home as int] as int]
    }
}

/// The full score of a placement: the summed confidence, over the piece's
/// stickers, of the color each sticker would show.
pub open spec fn placement_score(
    m: &GroupModel,
    conf: Seq<Vec<u64>>,
    ob: int,
    qpos: int,
    pp: int,
    o: int,
) -> int {
    placement_score_upto(m, conf, ob, qpos, pp, o, m.orbits@[ob]@[0]@.len() as int)
}

/// The listing position that a rotation by `o` sends to cyclic index `tp`.
spec fn shift_pre(slen: int, o: int, tp: int) -> int {
    if tp >= o {
        tp - o
    } else {
        tp - o + slen
    }
}

proof fn lemma_mod_shift_inj(slen: int, o: int, t1: int, t2: int)
    requires
        0 < slen,
        0 <= o < slen,
        0 <= t1 < slen,
        0 <= t2 < slen,
        (t1 + o) % slen == (t2 + o) % slen,
    ensures
        t1 == t2,
{
    assert((t1 + o) % slen == if t1 + o < slen {
        t1 + o
    } else {
        t1 + o - slen
    }) by (nonlinear_arith)
        requires
            0 < slen && 0 <= t1 < slen && 0 <= o < slen,
    ;
    assert((t2 + o) % slen == if t2 + o < slen {
        t2 + o
    } else {
        t2 + o - slen
    }) by (nonlinear_arith)
        requires
            0 < slen && 0 <= t2 < slen && 0 <= o < slen,
    ;
}

proof fn lemma_mod_shift_img(slen: int, o: int, tp: int)
    requires
        0 < slen,
        0 <= o < slen,
        0 <= tp < slen,
    ensures
        0 <= shift_pre(slen, o, tp) < slen,
        (shift_pre(slen, o, tp) + o) % slen == tp,
{
    let t = shift_pre(slen, o, tp);
    assert((t + o) % slen == tp) by (nonlinear_arith)
        requires
            0 < slen && 0 <= o < slen && 0 <= tp < slen && t == if tp >= o {
                tp - o
            } else {
                tp - o + slen
            },
    ;
}

/// Facelet `f` belongs to one of the first `obc` orbits.
spec fn in_orbits(m: &GroupModel, obc: int, f: int) -> bool {
    exists|ob2: int, p: int, tt: int|
        0 <= ob2 < obc && 0 <= p < m.orbits@[ob2]@.len() && 0 <= tt < m.orbits@[ob2]@[p]@.len()
            && #[trigger] m.orbit_facelet(ob2, p, tt) == f
}

/// `mp` assigns a distinct piece to every position of orbit `ob`, `os` an
/// orientation to each.
spec fn orbit_assignment_ok(m: &GroupModel, ob: int, mp: Seq<usize>, os: Seq<usize>) -> bool {
    &&& mp.len() == m.orbits@[ob]@.len()
    &&& os.len() == m.orbits@[ob]@.len()
    &&& forall|q: int| 0 <= q < mp.len() ==> (#[trigger] mp[q]) < mp.len()
    &&& forall|q1: int, q2: int| 0 <= q1 < q2 < mp.len() ==> mp[q1] != mp[q2]
    &&& forall|q: int| 0 <= q < os.len() ==> (#[trigger] os[q]) < m.orbits@[ob]@[0]@.len()
}

/// The mapping realizes orbit `ob`'s placements: piece `mp[q]`'s sticker
/// `tt` sits at position `q`'s cyclic index `tt + os[q]`.
spec fn placed_ok(m: &GroupModel, ob: int, mp: Seq<usize>, os: Seq<usize>, mapv: Seq<usize>) -> bool {
    forall|q: int, tt: int|
        0 <= q < m.orbits@[ob]@.len() && 0 <= tt < m.orbits@[ob]@[0]@.len() ==> mapv[m.orbit_facelet(
            ob,
            q,
            (tt + os[q]) % m.orbits@[ob]@[0]@.len() as int,
        )] == #[trigger] m.orbit_facelet(ob, mp[q] as int, tt)
}

/// Orientation `o` scores at least as well as every orientation.
pub open spec fn is_best_orientation(
    m: &GroupModel,
    conf: Seq<Vec<u64>>,
    ob: int,
    qpos: int,
    pp: int,
    o: int,
) -> bool {
    &&& 0 <= o < m.orbits@[ob]@[0]@.len()
    &&& forall|o2: int|
        0 <= o2 < m.orbits@[ob]@[0]@.len() ==> #[trigger] placement_score(
            m,
            conf,
            ob,
            qpos,
            pp,
            o2,
        ) <= placement_score(m, conf, ob, qpos, pp, o)
}

/// An orientation with the best placement score.
pub open spec fn best_orientation(m: &GroupModel, conf: Seq<Vec<u64>>, ob: int, qpos: int, pp: int) -> int {
    choose|o: int| #[trigger] is_best_orientation(m, conf, ob, qpos, pp, o)
}

/// The best score of placing piece `pp` at position `qpos` of orbit `ob`:
/// the maximum of `placement_score` over the orientations.
pub open spec fn placement_best(m: &GroupModel, conf: Seq<Vec<u64>>, ob: int, qpos: int, pp: int) -> int {
    placement_score(m, conf, ob, qpos, pp, best_orientation(m, conf, ob, qpos, pp))
}

proof fn lemma_placement_best_is(
    m: &GroupModel,
    conf: Seq<Vec<u64>>,
    ob: int,
    qpos: int,
    pp: int,
    v: int,
    ov: int,
)
    requires
        0 <= ov < m.orbits@[ob]@[0]@.len(),
        placement_score(m, conf, ob, qpos, pp, ov) == v,
        forall|o: int|
            0 <= o < m.orbits@[ob]@[0]@.len() ==> #[trigger] placement_score(
                m,
                conf,
                ob,
                qpos,
                pp,
                o,
            ) <= v,
    ensures
        placement_best(m, conf, ob, qpos, pp) == v,
{
    assert(is_best_orientation(m, conf, ob, qpos, pp, ov));
    let o0 = best_orientation(m, conf, ob, qpos, pp);
    assert(is_best_orientation(m, conf, ob, qpos, pp, o0));
    assert(placement_score(m, conf, ob, qpos, pp, o0) <= v);
    assert(v <= placement_score(m, conf, ob, qpos, pp, o0));
}

/// `a` assigns a distinct piece to every position of orbit `ob`./// `a` assigns a distinct piece to every position of orbit `ob`.
pub open spec fn is_orbit_assignment(m: &GroupModel, ob: int, a: Seq<usize>) -> bool {
    &&& a.len() == m.orbits@[ob]@.len()
    &&& forall|q: int| 0 <= q < a.len() ==> (#[trigger] a[q]) < a.len()
    &&& forall|q1: int, q2: int| 0 <= q1 < q2 < a.len() ==> a[q1] != a[q2]
}

/// Total best score of an orbit assignment's first `q` positions.
pub open spec fn orbit_total_upto(
    m: &GroupModel,
    conf: Seq<Vec<u64>>,
    ob: int,
    a: Seq<usize>,
    q: int,
) -> int
    decreases q,
{
    if q <= 0 {
        0
    } else {
        orbit_total_upto(m, conf, ob, a, q - 1) + placement_best(m, conf, ob, q - 1, a[q - 1] as int)
    }
}

pub open spec fn orbit_total(m: &GroupModel, conf: Seq<Vec<u64>>, ob: int, a: Seq<usize>) -> int {
    orbit_total_upto(m, conf, ob, a, m.orbits@[ob]@.len() as int)
}

/// `a` is an assignment of orbit `ob` whose total no assignment beats.
pub open spec fn is_best_assignment(m: &GroupModel, conf: Seq<Vec<u64>>, ob: int, a: Seq<usize>) -> bool {
    &&& is_orbit_assignment(m, ob, a)
    &&& forall|a2: Seq<usize>|
        is_orbit_assignment(m, ob, a2) ==> #[trigger] orbit_total(m, conf, ob, a2) <= orbit_total(
            m,
            conf,
            ob,
            a,
        )
}

/// An assignment of orbit `ob` with the best total score.
pub open spec fn best_assignment(m: &GroupModel, conf: Seq<Vec<u64>>, ob: int) -> Seq<usize> {
    choose|a: Seq<usize>| #[trigger] is_best_assignment(m, conf, ob, a)
}

/// The best total score any assignment of orbit `ob` can reach.
pub open spec fn orbit_opt(m: &GroupModel, conf: Seq<Vec<u64>>, ob: int) -> int {
    orbit_total(m, conf, ob, best_assignment(m, conf, ob))
}

proof fn lemma_orbit_opt_is(m: &GroupModel, conf: Seq<Vec<u64>>, ob: int, av: Seq<usize>)
    requires
        is_orbit_assignment(m, ob, av),
        forall|a: Seq<usize>|
            is_orbit_assignment(m, ob, a) ==> #[trigger] orbit_total(m, conf, ob, a)
                <= orbit_total(m, conf, ob, av),
    ensures
        orbit_opt(m, conf, ob) == orbit_total(m, conf, ob, av),
{
    assert(is_best_assignment(m, conf, ob, av));
    let a0 = best_assignment(m, conf, ob);
    assert(is_best_assignment(m, conf, ob, a0));
    assert(orbit_total(m, conf, ob, a0) <= orbit_total(m, conf, ob, av));
    assert(orbit_total(m, conf, ob, av) <= orbit_total(m, conf, ob, a0));
}

/// Sum of the best reachable totals of the first `obc` orbits.
pub open spec fn opt_total_upto(m: &GroupModel, conf: Seq<Vec<u64>>, obc: int) -> int
    decreases obc,
{
    if obc <= 0 {
        0
    } else {
        opt_total_upto(m, conf, obc - 1) + orbit_opt(m, conf, obc - 1)
    }
}

/// Stickers covered by the first `obc` orbits.
pub open spec fn covered_upto(m: &GroupModel, obc: int) -> int
    decreases obc,
{
    if obc <= 0 {
        0
    } else {
        covered_upto(m, obc - 1) + m.orbits@[obc - 1]@.len() * m.orbits@[obc - 1]@[0]@.len()
    }
}

proof fn lemma_cost_is_total(
    m: &GroupModel,
    conf: Seq<Vec<u64>>,
    ob: int,
    cmat: Seq<Seq<Option<i64>>>,
    a: Seq<usize>,
    q: int,
)
    requires
        cmat.len() == m.orbits@[ob]@.len(),
        forall|q2: int, p2: int|
            0 <= q2 < cmat.len() && 0 <= p2 < cmat.len() ==> ((#[trigger] cmat[q2][p2]) matches
            Some(v) && v == placement_best(m, conf, ob, q2, p2)),
        forall|q2: int| 0 <= q2 < a.len() ==> (#[trigger] a[q2]) < cmat.len(),
        0 <= q <= cmat.len(),
        q <= a.len(),
    ensures
        crate::matching::cost_upto(cmat, a, q) == orbit_total_upto(m, conf, ob, a, q),
    decreases q,
{
    if q > 0 {
        lemma_cost_is_total(m, conf, ob, cmat, a, q - 1);
        assert((cmat[q - 1][a[q - 1] as int] matches Some(v) && v == placement_best(
            m,
            conf,
            ob,
            q - 1,
            a[q - 1] as int,
        )));
    }
}

/// What the composed mapping holds at facelet `f`/// What the composed mapping holds at facelet `f`: the placed sticker if
/// `f` belongs to an orbit, and `f` itself otherwise.
proof fn lemma_resolve_cell(
    m: &GroupModel,
    gms: Seq<Seq<usize>>,
    gos: Seq<Seq<usize>>,
    mapv: Seq<usize>,
    n: int,
    f: int,
)
    requires
        m.wf(),
        n == m.facelet_count(),
        mapv.len() == n,
        gms.len() == m.orbits@.len(),
        gos.len() == m.orbits@.len(),
        forall|ob2: int|
            0 <= ob2 < m.orbits@.len() ==> orbit_assignment_ok(m, ob2, #[trigger] gms[ob2], gos[ob2]),
        forall|ob2: int|
            0 <= ob2 < m.orbits@.len() ==> placed_ok(m, ob2, #[trigger] gms[ob2], gos[ob2], mapv),
        forall|f4: int|
            0 <= f4 < n && !in_orbits(m, m.orbits@.len() as int, f4) ==> mapv[f4] == f4,
        0 <= f < n,
    ensures
        in_orbits(m, m.orbits@.len() as int, f) ==> (exists|ob2: int, q: int, tt: int|
            0 <= ob2 < m.orbits@.len() && 0 <= q < m.orbits@[ob2]@.len() && 0 <= tt
                < m.orbits@[ob2]@[0]@.len() && f == m.orbit_facelet(
                ob2,
                q,
                (tt + gos[ob2][q]) % m.orbits@[ob2]@[0]@.len() as int,
            ) && mapv[f] == #[trigger] m.orbit_facelet(ob2, gms[ob2][q] as int, tt)),
        !in_orbits(m, m.orbits@.len() as int, f) ==> mapv[f] == f,
{
    if in_orbits(m, m.orbits@.len() as int, f) {
        let (ob2, p, tt) = choose|ob2: int, p: int, tt: int|
            0 <= ob2 < m.orbits@.len() && 0 <= p < m.orbits@[ob2]@.len() && 0 <= tt
                < m.orbits@[ob2]@[p]@.len() && #[trigger] m.orbit_facelet(ob2, p, tt) == f;
        assert(orbit_wf(m.orbits@[ob2]@, m.facelet_count()));
        let slen = m.orbits@[ob2]@[0]@.len() as int;
        assert(m.orbits@[ob2]@[p]@.len() == slen);
        assert(orbit_assignment_ok(m, ob2, gms[ob2], gos[ob2]));
        assert(placed_ok(m, ob2, gms[ob2], gos[ob2], mapv));
        let o = gos[ob2][p] as int;
        assert(gos[ob2][p] < m.orbits@[ob2]@[0]@.len());
        assert(0 <= o < slen);
        let tpre = shift_pre(slen, o, tt);
        lemma_mod_shift_img(slen, o, tt);
        assert(m.orbit_facelet(ob2, p, (tpre + gos[ob2][p]) % slen) == f);
        assert(mapv[f] == m.orbit_facelet(ob2, gms[ob2][p] as int, tpre));
    }
}

/// Resolves confidence distributions into a single puzzle state.
#[derive(Debug, Clone)]
pub struct Matcher {
    model: GroupModel,
}

impl Matcher {
    pub closed spec fn model_spec(&self) -> &GroupModel {
        &self.model
    }

    pub open spec fn wf(&self) -> bool {
        self.model_spec().wf()
    }

    pub fn new(model: GroupModel) -> (r: Matcher)
        requires
            model.wf(),
        ensures
            r.wf(),
            r.model_spec() == &model,
    {
        Matcher { model }
    }

    /// The puzzle model this matcher was built from.
    pub fn model(&self) -> (r: &GroupModel)
        ensures
            r == self.model_spec(),
    {
        &self.model
    }

    /// Best placement of piece `pp` at position `qpos`: the score is the
    /// maximum of `placement_score` over the orientations, and the reported
    /// orientation is the first one achieving it.
    fn score_placement(
        &self,
        confidences: &Vec<Vec<u64>>,
        ob: usize,
        qpos: usize,
        pp: usize,
    ) -> (r: (i64, usize))
        requires
            self.wf(),
            confidences_ok(
                confidences@,
                self.model_spec().facelet_count(),
                self.model_spec().num_colors as int,
            ),
            ob < self.model_spec().orbits@.len(),
            qpos < self.model_spec().orbits@[ob as int]@.len(),
            pp < self.model_spec().orbits@[ob as int]@.len(),
        ensures
            0 <= r.0 <= self.model_spec().orbits@[ob as int]@[0]@.len() * CONF_ONE,
            r.1 < self.model_spec().orbits@[ob as int]@[0]@.len(),
            r.0 == placement_score(
                self.model_spec(),
                confidences@,
                ob as int,
                qpos as int,
                pp as int,
                r.1 as int,
            ),
            forall|o2: int|
                0 <= o2 < self.model_spec().orbits@[ob as int]@[0]@.len() ==> placement_score(
                    self.model_spec(),
                    confidences@,
                    ob as int,
                    qpos as int,
                    pp as int,
                    o2,
                ) <= r.0,
            forall|o2: int|
                0 <= o2 < r.1 ==> placement_score(
                    self.model_spec(),
                    confidences@,
                    ob as int,
                    qpos as int,
                    pp as int,
                    o2,
                ) < r.0,
    {
        let pieces = &self.model.orbits[ob];
        let slen = pieces[0].len();
        proof {
            assert(orbit_len_eq(self.model_spec(), ob as int, qpos as int));
            assert(orbit_len_eq(self.model_spec(), ob as int, pp as int));
        }
        let mut best: i64 = 0;
        let mut besto: usize = 0;
        let mut o: usize = 0;
        while o < slen
            invariant
                self.wf(),
                confidences_ok(
                    confidences@,
                    self.model_spec().facelet_count(),
                    self.model_spec().num_colors as int,
                ),
                ob < self.model_spec().orbits@.len(),
                qpos < self.model_spec().orbits@[ob as int]@.len(),
                pp < self.model_spec().orbits@[ob as int]@.len(),
                pieces == &self.model_spec().orbits@[ob as int],
                slen == self.model_spec().orbits@[ob as int]@[0]@.len(),
                1 <= slen <= 0x10000,
                o <= slen,
                0 <= best <= slen * CONF_ONE,
                besto < slen,
                o > 0 ==> best == placement_score(
                    self.model_spec(),
                    confidences@,
                    ob as int,
                    qpos as int,
                    pp as int,
                    besto as int,
                ),
                o == 0 ==> best == 0 && besto == 0,
                forall|o2: int|
                    0 <= o2 < o ==> placement_score(
                        self.model_spec(),
                        confidences@,
                        ob as int,
                        qpos as int,
                        pp as int,
                        o2,
                    ) <= best,
                forall|o2: int|
                    0 <= o2 < besto ==> placement_score(
                        self.model_spec(),
                        confidences@,
                        ob as int,
                        qpos as int,
                        pp as int,
                        o2,
                    ) < best,
            decreases slen - o,
        {
            let mut sum: i64 = 0;
            let mut t: usize = 0;
            while t < slen
                invariant
                    self.wf(),
                    confidences_ok(
                        confidences@,
                        self.model_spec().facelet_count(),
                        self.model_spec().num_colors as int,
                    ),
                    ob < self.model_spec().orbits@.len(),
                    qpos < self.model_spec().orbits@[ob as int]@.len(),
                    pp < self.model_spec().orbits@[ob as int]@.len(),
                    pieces == &self.model_spec().orbits@[ob as int],
                    slen == self.model_spec().orbits@[ob as int]@[0]@.len(),
                    1 <= slen <= 0x10000,
                    o < slen,
                    t <= slen,
                    0 <= sum <= t * CONF_ONE,
                    sum == placement_score_upto(
                        self.model_spec(),
                        confidences@,
                        ob as int,
                        qpos as int,
                        pp as int,
                        o as int,
                        t as int,
                    ),
                decreases slen - t,
            {
                proof {
                    assert(orbit_len_eq(self.model_spec(), ob as int, qpos as int));
                    assert(orbit_len_eq(self.model_spec(), ob as int, pp as int));
                }
                let shown = pieces[qpos][(t + o) % slen];
                let home = pieces[pp][t];
                let colr = self.model.facelet_colors[home];
                let cv = confidences[shown][colr];
                proof {
                    assert(confidences@[shown as int]@[colr as int] <= CONF_ONE);
                }
                sum = sum + cv as i64;
                t = t + 1;
            }
            if sum > best {
                best = sum;
                besto = o;
            }
            o = o + 1;
        }
        (best, besto)
    }

    /// The most likely puzzle state under the given per-slot confidence
    /// distributions. Each orbit receives an assignment of pieces to
    /// positions whose total best-orientation score no other assignment
    /// beats, every piece is placed with a best orientation, and the
    /// composed placements form the returned mapping — always a bijection
    /// on the facelets. The confidence equals the summed best reachable
    /// orbit totals divided by the number of covered stickers (or
    /// `CONF_ONE` when no orbit covers anything), so it lies in
    /// `[0, CONF_ONE]`.
    pub fn most_likely(&self, confidences: &Vec<Vec<u64>>) -> (r: (Perm, u64))
        requires
            self.wf(),
            confidences_ok(
                confidences@,
                self.model_spec().facelet_count(),
                self.model_spec().num_colors as int,
            ),
        ensures
            r.0.valid(self.model_spec().facelet_count()),
            r.1 <= CONF_ONE,
            r.1 == if covered_upto(self.model_spec(), self.model_spec().orbits@.len() as int)
                == 0 {
                CONF_ONE as int
            } else {
                opt_total_upto(
                    self.model_spec(),
                    confidences@,
                    self.model_spec().orbits@.len() as int,
                ) / covered_upto(self.model_spec(), self.model_spec().orbits@.len() as int)
            },
    {
        let n = self.model.facelet_colors.len();
        let mut map: Vec<usize> = Vec::new();
        let mut f: usize = 0;
        while f < n
            invariant
                f <= n,
                map@.len() == f,
                forall|t: int| 0 <= t < f ==> (#[trigger] map@[t]) == t,
            decreases n - f,
        {
            map.push(f);
            f = f + 1;
        }

        let n_orbits = self.model.orbits.len();
        let mut total: u128 = 0;
        let mut covered: u64 = 0;
        let ghost mut gms: Seq<Seq<usize>> = Seq::empty();
        let ghost mut gos: Seq<Seq<usize>> = Seq::empty();
        let mut ob: usize = 0;
        while ob < n_orbits
            invariant
                self.wf(),
                confidences_ok(
                    confidences@,
                    self.model_spec().facelet_count(),
                    self.model_spec().num_colors as int,
                ),
                ob <= n_orbits,
                n_orbits == self.model_spec().orbits@.len(),
                n == self.model_spec().facelet_count(),
                map@.len() == n,
                forall|t: int| 0 <= t < n ==> (#[trigger] map@[t]) < n,
                covered <= ob * 0x1_0000_0000,
                total <= covered * (CONF_ONE as int),
                total == opt_total_upto(self.model_spec(), confidences@, ob as int),
                covered == covered_upto(self.model_spec(), ob as int),
                gms.len() == ob,
                gos.len() == ob,
                forall|ob2: int|
                    0 <= ob2 < ob ==> orbit_assignment_ok(
                        self.model_spec(),
                        ob2,
                        #[trigger] gms[ob2],
                        gos[ob2],
                    ),
                forall|ob2: int|
                    0 <= ob2 < ob ==> placed_ok(
                        self.model_spec(),
                        ob2,
                        #[trigger] gms[ob2],
                        gos[ob2],
                        map@,
                    ),
                forall|f4: int|
                    0 <= f4 < n && !in_orbits(self.model_spec(), ob as int, f4) ==> (
                #[trigger] map@[f4]) == f4,
            decreases n_orbits - ob,
        {
            let pieces = &self.model.orbits[ob];
            let pc = pieces.len();
            let slen = pieces[0].len();

            let mut costs: Vec<Vec<Option<i64>>> = Vec::new();
            let mut qpos: usize = 0;
            while qpos < pc
                invariant
                    self.wf(),
                    confidences_ok(
                        confidences@,
                        self.model_spec().facelet_count(),
                        self.model_spec().num_colors as int,
                    ),
                    ob < n_orbits,
                    n_orbits == self.model_spec().orbits@.len(),
                    pieces == &self.model_spec().orbits@[ob as int],
                    pc == pieces@.len(),
                    1 <= pc <= 0x10000,
                    slen == self.model_spec().orbits@[ob as int]@[0]@.len(),
                    1 <= slen <= 0x10000,
                    qpos <= pc,
                    costs@.len() == qpos,
                    forall|q2: int| 0 <= q2 < qpos ==> (#[trigger] costs@[q2])@.len() == pc,
                    forall|q2: int, p2: int|
                        0 <= q2 < qpos && 0 <= p2 < costs@[q2]@.len() ==> match (
                        #[trigger] costs@[q2]@[p2]) {
                            Some(v) => 0 <= v <= MAX_COST && v == placement_best(
                                self.model_spec(),
                                confidences@,
                                ob as int,
                                q2,
                                p2,
                            ),
                            None => false,
                        },
                decreases pc - qpos,
            {
                let mut row: Vec<Option<i64>> = Vec::new();
                let mut pp: usize = 0;
                while pp < pc
                    invariant
                        self.wf(),
                        confidences_ok(
                            confidences@,
                            self.model_spec().facelet_count(),
                            self.model_spec().num_colors as int,
                        ),
                        ob < n_orbits,
                        n_orbits == self.model_spec().orbits@.len(),
                        pieces == &self.model_spec().orbits@[ob as int],
                        pc == pieces@.len(),
                        1 <= pc <= 0x10000,
                        slen == self.model_spec().orbits@[ob as int]@[0]@.len(),
                        1 <= slen <= 0x10000,
                        qpos < pc,
                        pp <= pc,
                        row@.len() == pp,
                        forall|p2: int| 0 <= p2 < pp ==> match (#[trigger] row@[p2]) {
                            Some(v) => 0 <= v <= MAX_COST && v == placement_best(
                                self.model_spec(),
                                confidences@,
                                ob as int,
                                qpos as int,
                                p2,
                            ),
                            None => false,
                        },
                    decreases pc - pp,
                {
                    let (sc, bo) = self.score_placement(confidences, ob, qpos, pp);
                    proof {
                        assert(slen * CONF_ONE <= 0x10000 * CONF_ONE);
                        lemma_placement_best_is(
                            self.model_spec(),
                            confidences@,
                            ob as int,
                            qpos as int,
                            pp as int,
                            sc as int,
                            bo as int,
                        );
                    }
                    row.push(Some(sc));
                    pp = pp + 1;
                }
                costs.push(row);
                qpos = qpos + 1;
            }

            proof {
                assert(square(mat_view(&costs)));
                assert(costs_bounded(mat_view(&costs))) by {
                    assert forall|i: int, j: int|
                        0 <= i < mat_view(&costs).len() && 0 <= j < mat_view(&costs)[i].len()
                            implies match #[trigger] mat_view(&costs)[i][j] {
                        Some(v) => -MAX_COST <= v <= MAX_COST,
                        None => true,
                    } by {
                        assert(mat_view(&costs)[i] == costs@[i]@);
                    }
                }
            }
            let m = match maximum_matching(&costs) {
                None => {
                    // Dead branch: every cell is finite, so the identity
                    // assignment witnesses a perfect matching.
                    proof {
                        let ghost ident = Seq::new(pc as nat, |i: int| i as usize);
                        assert(is_perfect_matching(mat_view(&costs), ident)) by {
                            assert forall|i: int| 0 <= i < pc implies (#[trigger] ident[i])
                                < pc by {}
                            assert forall|i: int|
                                0 <= i < pc implies crate::matching::allowed(
                                mat_view(&costs),
                                i,
                                ident[i] as int,
                            ) by {
                                assert(mat_view(&costs)[i] == costs@[i]@);
                                assert(ident[i] == i as usize);
                            }
                        }
                        assert(false);
                    }
                    return (Perm { map: Vec::new() }, 0);
                },
                Some(m) => m,
            };

            proof {
                let mdl = self.model_spec();
                assert forall|q2: int, p2: int|
                    0 <= q2 < pc && 0 <= p2 < pc implies ((#[trigger] mat_view(&costs)[q2][p2])
                    matches Some(v) && v == placement_best(mdl, confidences@, ob as int, q2, p2))
                    by {
                    assert(mat_view(&costs)[q2] == costs@[q2]@);
                }
                assert forall|a: Seq<usize>|
                    is_orbit_assignment(mdl, ob as int, a) implies #[trigger] orbit_total(
                    mdl,
                    confidences@,
                    ob as int,
                    a,
                ) <= orbit_total(mdl, confidences@, ob as int, m@) by {
                    assert(is_perfect_matching(mat_view(&costs), a)) by {
                        assert forall|i2: int|
                            0 <= i2 < a.len() implies crate::matching::allowed(
                            mat_view(&costs),
                            i2,
                            #[trigger] a[i2] as int,
                        ) by {
                            assert((mat_view(&costs)[i2][a[i2] as int]) matches Some(v) && v
                                == placement_best(
                                mdl,
                                confidences@,
                                ob as int,
                                i2,
                                a[i2] as int,
                            ));
                        }
                    }
                    lemma_cost_is_total(mdl, confidences@, ob as int, mat_view(&costs), a, pc as int);
                    lemma_cost_is_total(
                        mdl,
                        confidences@,
                        ob as int,
                        mat_view(&costs),
                        m@,
                        pc as int,
                    );
                }
                assert(is_orbit_assignment(mdl, ob as int, m@));
                lemma_orbit_opt_is(mdl, confidences@, ob as int, m@);
            }
            let ghost covered0 = covered;
            let ghost total0 = total;
            let ghost mut go_cur: Seq<usize> = Seq::empty();
            let mut qpos2: usize = 0;
            while qpos2 < pc
                invariant
                    self.wf(),
                    confidences_ok(
                        confidences@,
                        self.model_spec().facelet_count(),
                        self.model_spec().num_colors as int,
                    ),
                    ob < n_orbits,
                    n_orbits == self.model_spec().orbits@.len(),
                    pieces == &self.model_spec().orbits@[ob as int],
                    pc == pieces@.len(),
                    1 <= pc <= 0x10000,
                    slen == self.model_spec().orbits@[ob as int]@[0]@.len(),
                    1 <= slen <= 0x10000,
                    n == self.model_spec().facelet_count(),
                    is_perfect_matching(mat_view(&costs), m@),
                    costs@.len() == pc,
                    qpos2 <= pc,
                    map@.len() == n,
                    forall|t: int| 0 <= t < n ==> (#[trigger] map@[t]) < n,
                    covered <= covered0 + qpos2 * 0x10000,
                    covered0 <= ob * 0x1_0000_0000,
                    total <= covered * (CONF_ONE as int),
                    total0 == opt_total_upto(self.model_spec(), confidences@, ob as int),
                    covered0 == covered_upto(self.model_spec(), ob as int),
                    total == total0 + orbit_total_upto(
                        self.model_spec(),
                        confidences@,
                        ob as int,
                        m@,
                        qpos2 as int,
                    ),
                    covered == covered0 + (qpos2 as int) * (slen as int),
                    orbit_opt(self.model_spec(), confidences@, ob as int) == orbit_total(
                        self.model_spec(),
                        confidences@,
                        ob as int,
                        m@,
                    ),
                    go_cur.len() == qpos2,
                    forall|q: int| 0 <= q < qpos2 ==> (#[trigger] go_cur[q]) < slen,
                    gms.len() == ob,
                    gos.len() == ob,
                    forall|ob2: int|
                        0 <= ob2 < ob ==> orbit_assignment_ok(
                            self.model_spec(),
                            ob2,
                            #[trigger] gms[ob2],
                            gos[ob2],
                        ),
                    forall|ob2: int|
                        0 <= ob2 < ob ==> placed_ok(
                            self.model_spec(),
                            ob2,
                            #[trigger] gms[ob2],
                            gos[ob2],
                            map@,
                        ),
                    forall|q: int, tt: int|
                        0 <= q < qpos2 && 0 <= tt < slen ==> map@[self.model_spec().orbit_facelet(
                            ob as int,
                            q,
                            (tt + go_cur[q]) % (slen as int),
                        )] == #[trigger] self.model_spec().orbit_facelet(
                            ob as int,
                            m@[q] as int,
                            tt,
                        ),
                    forall|f4: int|
                        0 <= f4 < n && !in_orbits(self.model_spec(), ob + 1, f4) ==> (
                    #[trigger] map@[f4]) == f4,
                decreases pc - qpos2,
            {
                let pp = m[qpos2];
                let (sc, besto) = self.score_placement(confidences, ob, qpos2, pp);
                let mut t: usize = 0;
                while t < slen
                    invariant
                        self.wf(),
                        ob < n_orbits,
                        n_orbits == self.model_spec().orbits@.len(),
                        pieces == &self.model_spec().orbits@[ob as int],
                        pc == pieces@.len(),
                        slen == self.model_spec().orbits@[ob as int]@[0]@.len(),
                        1 <= slen <= 0x10000,
                        n == self.model_spec().facelet_count(),
                        qpos2 < pc,
                        pp < pc,
                        pp == m@[qpos2 as int],
                        besto < slen,
                        t <= slen,
                        map@.len() == n,
                        forall|t2: int| 0 <= t2 < n ==> (#[trigger] map@[t2]) < n,
                        go_cur.len() == qpos2,
                        forall|q: int| 0 <= q < qpos2 ==> (#[trigger] go_cur[q]) < slen,
                        gms.len() == ob,
                        gos.len() == ob,
                        forall|ob2: int|
                            0 <= ob2 < ob ==> orbit_assignment_ok(
                                self.model_spec(),
                                ob2,
                                #[trigger] gms[ob2],
                                gos[ob2],
                            ),
                        forall|ob2: int|
                            0 <= ob2 < ob ==> placed_ok(
                                self.model_spec(),
                                ob2,
                                #[trigger] gms[ob2],
                                gos[ob2],
                                map@,
                            ),
                        forall|q: int, tt: int|
                            0 <= q < qpos2 && 0 <= tt < slen ==> map@[self.model_spec(
                            ).orbit_facelet(ob as int, q, (tt + go_cur[q]) % (slen as int))]
                                == #[trigger] self.model_spec().orbit_facelet(
                                ob as int,
                                m@[q] as int,
                                tt,
                            ),
                        forall|tt: int|
                            0 <= tt < t ==> map@[self.model_spec().orbit_facelet(
                                ob as int,
                                qpos2 as int,
                                (tt + besto) % (slen as int),
                            )] == #[trigger] self.model_spec().orbit_facelet(
                                ob as int,
                                m@[qpos2 as int] as int,
                                tt,
                            ),
                        forall|f4: int|
                            0 <= f4 < n && !in_orbits(self.model_spec(), ob + 1, f4) ==> (
                        #[trigger] map@[f4]) == f4,
                    decreases slen - t,
                {
                    proof {
                        assert(orbit_len_eq(self.model_spec(), ob as int, qpos2 as int));
                        assert(orbit_len_eq(self.model_spec(), ob as int, pp as int));
                    }
                    let shown = pieces[qpos2][(t + besto) % slen];
                    let home = pieces[pp][t];
                    proof {
                        assert(shown as int == self.model_spec().orbit_facelet(
                            ob as int,
                            qpos2 as int,
                            ((t + besto) as int) % (slen as int),
                        ));
                        assert(((t + besto) as int) % (slen as int) == (t + besto) % (
                        slen as int));
                        assert(home as int == self.model_spec().orbit_facelet(
                            ob as int,
                            pp as int,
                            t as int,
                        ));
                        assert(home < n) by {
                            assert(orbit_wf(
                                self.model_spec().orbits@[ob as int]@,
                                self.model_spec().facelet_count(),
                            ));
                        }
                    }
                    let ghost map_pre = map@;
                    map.set(shown, home);
                    proof {
                        let mdl = self.model_spec();
                        let sidx = mdl.orbit_facelet(
                            ob as int,
                            qpos2 as int,
                            (t + besto) % (slen as int),
                        );
                        // The one overwritten cell belongs to orbit `ob` at
                        // position `qpos2` and cyclic index `t + besto`;
                        // every cell any invariant speaks of is a different
                        // listed facelet.
                        assert forall|ob2: int|
                            0 <= ob2 < ob implies placed_ok(
                            mdl,
                            ob2,
                            #[trigger] gms[ob2],
                            gos[ob2],
                            map@,
                        ) by {
                            assert forall|q: int, tt: int|
                                0 <= q < mdl.orbits@[ob2]@.len() && 0 <= tt
                                    < mdl.orbits@[ob2]@[0]@.len() implies map@[mdl.orbit_facelet(
                                ob2,
                                q,
                                (tt + gos[ob2][q]) % mdl.orbits@[ob2]@[0]@.len() as int,
                            )] == #[trigger] mdl.orbit_facelet(ob2, gms[ob2][q] as int, tt) by {
                                assert(orbit_assignment_ok(mdl, ob2, gms[ob2], gos[ob2]));
                                assert(orbit_wf(mdl.orbits@[ob2]@, mdl.facelet_count()));
                                let idx2 = (tt + gos[ob2][q]) % mdl.orbits@[ob2]@[0]@.len() as int;
                                assert(0 <= idx2 < mdl.orbits@[ob2]@[q]@.len());
                                assert(mdl.orbit_facelet(ob2, q, idx2) != sidx);
                                assert(map@[mdl.orbit_facelet(ob2, q, idx2)] == map_pre[mdl.orbit_facelet(
                                    ob2,
                                    q,
                                    idx2,
                                )]);
                            }
                        }
                        assert forall|q: int, tt: int|
                            0 <= q < qpos2 && 0 <= tt < slen implies map@[mdl.orbit_facelet(
                            ob as int,
                            q,
                            (tt + go_cur[q]) % (slen as int),
                        )] == #[trigger] mdl.orbit_facelet(ob as int, m@[q] as int, tt) by {
                            assert(orbit_wf(mdl.orbits@[ob as int]@, mdl.facelet_count()));
                            let idx2 = (tt + go_cur[q]) % (slen as int);
                            assert(0 <= idx2 < mdl.orbits@[ob as int]@[q]@.len());
                            assert(mdl.orbit_facelet(ob as int, q, idx2) != sidx);
                            assert(map@[mdl.orbit_facelet(ob as int, q, idx2)] == map_pre[mdl.orbit_facelet(
                                ob as int,
                                q,
                                idx2,
                            )]);
                        }
                        assert forall|tt: int|
                            0 <= tt < t + 1 implies map@[mdl.orbit_facelet(
                            ob as int,
                            qpos2 as int,
                            (tt + besto) % (slen as int),
                        )] == #[trigger] mdl.orbit_facelet(
                            ob as int,
                            m@[qpos2 as int] as int,
                            tt,
                        ) by {
                            if tt < t {
                                let idx2 = (tt + besto) % (slen as int);
                                assert(0 <= idx2 < slen);
                                assert(idx2 != (t + besto) % (slen as int)) by {
                                    if idx2 == (t + besto) % (slen as int) {
                                        lemma_mod_shift_inj(
                                            slen as int,
                                            besto as int,
                                            tt,
                                            t as int,
                                        );
                                    }
                                }
                                assert(orbit_wf(
                                    mdl.orbits@[ob as int]@,
                                    mdl.facelet_count(),
                                ));
                                assert(mdl.orbit_facelet(ob as int, qpos2 as int, idx2)
                                    != sidx);
                                assert(map@[mdl.orbit_facelet(ob as int, qpos2 as int, idx2)]
                                    == map_pre[mdl.orbit_facelet(
                                    ob as int,
                                    qpos2 as int,
                                    idx2,
                                )]);
                            } else {
                                assert(map@[sidx] == home);
                            }
                        }
                        assert forall|f4: int|
                            0 <= f4 < n && !in_orbits(mdl, ob + 1, f4) implies (
                        #[trigger] map@[f4]) == f4 by {
                            assert(f4 != sidx) by {
                                if f4 == sidx {
                                    assert(in_orbits(mdl, ob + 1, f4)) by {
                                        assert(mdl.orbit_facelet(
                                            ob as int,
                                            qpos2 as int,
                                            (t + besto) % (slen as int),
                                        ) == f4);
                                    }
                                }
                            }
                        }
                    }
                    t = t + 1;
                }
                total = total + sc as u128;
                covered = covered + slen as u64;
                proof {
                    assert(sc <= slen * CONF_ONE);
                    lemma_placement_best_is(
                        self.model_spec(),
                        confidences@,
                        ob as int,
                        qpos2 as int,
                        pp as int,
                        sc as int,
                        besto as int,
                    );
                    assert(((qpos2 + 1) as int) * (slen as int) == (qpos2 as int) * (slen as int)
                        + slen) by (nonlinear_arith);
                    go_cur = go_cur.push(besto);
                    assert forall|q: int, tt: int|
                        0 <= q < qpos2 + 1 && 0 <= tt < slen implies map@[self.model_spec(
                        ).orbit_facelet(ob as int, q, (tt + go_cur[q]) % (slen as int))]
                            == #[trigger] self.model_spec().orbit_facelet(
                            ob as int,
                            m@[q] as int,
                            tt,
                        ) by {
                        if q < qpos2 {
                            assert(go_cur[q] == go_cur.drop_last()[q]);
                        } else {
                            assert(go_cur[q] == besto);
                        }
                    }
                }
                qpos2 = qpos2 + 1;
            }
            proof {
                assert(covered <= covered0 + pc * 0x10000);
                assert(pc * 0x10000 <= 0x10000 * 0x10000) by (nonlinear_arith)
                    requires
                        pc <= 0x10000,
                ;
                gms = gms.push(m@);
                gos = gos.push(go_cur);
                assert forall|ob2: int|
                    0 <= ob2 < ob + 1 implies orbit_assignment_ok(
                    self.model_spec(),
                    ob2,
                    #[trigger] gms[ob2],
                    gos[ob2],
                ) by {
                    if ob2 < ob {
                        assert(gms[ob2] == gms.drop_last()[ob2]);
                        assert(gos[ob2] == gos.drop_last()[ob2]);
                    } else {
                        assert(gms[ob2] == m@ && gos[ob2] == go_cur);
                    }
                }
                assert forall|ob2: int|
                    0 <= ob2 < ob + 1 implies placed_ok(
                    self.model_spec(),
                    ob2,
                    #[trigger] gms[ob2],
                    gos[ob2],
                    map@,
                ) by {
                    if ob2 < ob {
                        assert(gms[ob2] == gms.drop_last()[ob2]);
                        assert(gos[ob2] == gos.drop_last()[ob2]);
                    } else {
                        assert(gms[ob2] == m@ && gos[ob2] == go_cur);
                    }
                }
            }
            ob = ob + 1;
        }

        let conf: u64;
        if covered == 0 {
            conf = CONF_ONE;
        } else {
            proof {
                lemma_mean_le(total as int, covered as int);
            }
            conf = (total / (covered as u128)) as u64;
        }

        // The composed mapping is a bijection: orbit cells hold the placed
        // pieces' stickers — distinct because the orbits partition the
        // facelets, placements assign distinct pieces, and rotation is a
        // bijection of each piece's cyclic indices — and all other cells
        // still hold themselves.
        proof {
            let mdl = self.model_spec();
            assert forall|f1: int, f5: int| 0 <= f1 < f5 < n implies map@[f1] != map@[f5] by {
                if map@[f1] == map@[f5] {
                    lemma_resolve_cell(mdl, gms, gos, map@, n as int, f1);
                    lemma_resolve_cell(mdl, gms, gos, map@, n as int, f5);
                    if in_orbits(mdl, mdl.orbits@.len() as int, f1) {
                        let (oba, qa, ta) = choose|ob2: int, q: int, tt: int|
                            0 <= ob2 < mdl.orbits@.len() && 0 <= q < mdl.orbits@[ob2]@.len()
                                && 0 <= tt < mdl.orbits@[ob2]@[0]@.len() && f1
                                == mdl.orbit_facelet(
                                ob2,
                                q,
                                (tt + gos[ob2][q]) % mdl.orbits@[ob2]@[0]@.len() as int,
                            ) && map@[f1] == #[trigger] mdl.orbit_facelet(
                                ob2,
                                gms[ob2][q] as int,
                                tt,
                            );
                        assert(orbit_assignment_ok(mdl, oba, gms[oba], gos[oba]));
                        assert(orbit_wf(mdl.orbits@[oba]@, mdl.facelet_count()));
                        if in_orbits(mdl, mdl.orbits@.len() as int, f5) {
                            let (obb, qb, tb) = choose|ob2: int, q: int, tt: int|
                                0 <= ob2 < mdl.orbits@.len() && 0 <= q < mdl.orbits@[ob2]@.len()
                                    && 0 <= tt < mdl.orbits@[ob2]@[0]@.len() && f5
                                    == mdl.orbit_facelet(
                                    ob2,
                                    q,
                                    (tt + gos[ob2][q]) % mdl.orbits@[ob2]@[0]@.len() as int,
                                ) && map@[f5] == #[trigger] mdl.orbit_facelet(
                                    ob2,
                                    gms[ob2][q] as int,
                                    tt,
                                );
                            assert(orbit_assignment_ok(mdl, obb, gms[obb], gos[obb]));
                            assert(orbit_wf(mdl.orbits@[obb]@, mdl.facelet_count()));
                            assert(0 <= gms[oba][qa] < mdl.orbits@[oba]@.len());
                            assert(0 <= gms[obb][qb] < mdl.orbits@[obb]@.len());
                            assert(mdl.orbits@[oba]@[gms[oba][qa] as int]@.len()
                                == mdl.orbits@[oba]@[0]@.len());
                            assert(mdl.orbits@[obb]@[gms[obb][qb] as int]@.len()
                                == mdl.orbits@[obb]@[0]@.len());
                            // The two placed stickers are one listed
                            // facelet, so their coordinates agree.
                            assert(oba == obb && gms[oba][qa] as int == gms[obb][qb] as int
                                && ta == tb) by {
                                if !(oba == obb && gms[oba][qa] as int == gms[obb][qb] as int
                                    && ta == tb) {
                                    assert(mdl.orbit_facelet(oba, gms[oba][qa] as int, ta)
                                        != mdl.orbit_facelet(obb, gms[obb][qb] as int, tb));
                                }
                            }
                            assert(qa == qb) by {
                                if qa < qb {
                                    assert(gms[oba][qa] != gms[oba][qb]);
                                } else if qb < qa {
                                    assert(gms[oba][qb] != gms[oba][qa]);
                                }
                            }
                            assert(f1 == f5);
                            assert(false);
                        } else {
                            // `f5` holds itself, yet equals a listed orbit
                            // facelet — so it would lie in an orbit.
                            assert(map@[f5] == f5);
                            assert(in_orbits(mdl, mdl.orbits@.len() as int, f5)) by {
                                assert(mdl.orbit_facelet(oba, gms[oba][qa] as int, ta) == f5);
                                assert(0 <= gms[oba][qa] < mdl.orbits@[oba]@.len());
                                assert(mdl.orbits@[oba]@[gms[oba][qa] as int]@.len()
                                    == mdl.orbits@[oba]@[0]@.len());
                            }
                            assert(false);
                        }
                    } else {
                        if in_orbits(mdl, mdl.orbits@.len() as int, f5) {
                            let (obb, qb, tb) = choose|ob2: int, q: int, tt: int|
                                0 <= ob2 < mdl.orbits@.len() && 0 <= q < mdl.orbits@[ob2]@.len()
                                    && 0 <= tt < mdl.orbits@[ob2]@[0]@.len() && f5
                                    == mdl.orbit_facelet(
                                    ob2,
                                    q,
                                    (tt + gos[ob2][q]) % mdl.orbits@[ob2]@[0]@.len() as int,
                                ) && map@[f5] == #[trigger] mdl.orbit_facelet(
                                    ob2,
                                    gms[ob2][q] as int,
                                    tt,
                                );
                            assert(orbit_assignment_ok(mdl, obb, gms[obb], gos[obb]));
                            assert(orbit_wf(mdl.orbits@[obb]@, mdl.facelet_count()));
                            assert(map@[f1] == f1);
                            assert(in_orbits(mdl, mdl.orbits@.len() as int, f1)) by {
                                assert(mdl.orbit_facelet(obb, gms[obb][qb] as int, tb) == f1);
                                assert(0 <= gms[obb][qb] < mdl.orbits@[obb]@.len());
                                assert(mdl.orbits@[obb]@[gms[obb][qb] as int]@.len()
                                    == mdl.orbits@[obb]@[0]@.len());
                            }
                            assert(false);
                        } else {
                            assert(map@[f1] == f1 && map@[f5] == f5);
                            assert(false);
                        }
                    }
                }
            }
            assert(is_perm(map@));
        }
        (Perm { map }, conf)
    }
}

/// In a well-formed model every piece of an orbit has the first piece's
/// sticker count.
pub open spec fn orbit_len_eq(m: &GroupModel, ob: int, p: int) -> bool {
    m.orbits@[ob]@[p]@.len() == m.orbits@[ob]@[0]@.len()
}

} // verus!
