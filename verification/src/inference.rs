//! The streaming color-confidence engine: per-slot observation stores grown
//! by calibration frames and read by inference queries.
//!
//! Calibration white-balance-corrects each sticker pixel and appends the
//! corrected point to that slot's store for the color the known state puts
//! there. Inference corrects the same way, estimates a density against every
//! color's store, reduces the samples to one representative confidence per
//! color by an order statistic, and normalizes so every confidence lies in
//! `[0, CONF_ONE]`.

use vstd::prelude::*;

use crate::model::{GroupModel, Perm};
use crate::rng::SeededRng;
use crate::select::quickselect;
use crate::store::{
    density, kth_nearest_dist, neighbor_count, ColorStore, Point, point_ok, CORR_MAX,
    DENSITY_MAX,
};
use crate::{CHAN_ONE, CONF_ONE, Pixel};
use vstd::arithmetic::div_mod::{lemma_div_is_ordered, lemma_div_multiples_vanish};

verus! {

/// Percentile for the representative confidence: the sample at descending
/// rank `len / CONFIDENCE_PERCENTILE_DIV`.
pub const CONFIDENCE_PERCENTILE_DIV: usize = 5;

/// All pixels observing one sticker slot share its stores.
#[derive(Debug, Clone)]
pub struct SlotPixel {
    pub idx: usize,
    pub stores: Vec<ColorStore>,
}

/// A raw image pixel: three channels, each at most `CHAN_ONE`.
pub type Rgb = (u64, u64, u64);

pub open spec fn rgb_ok(p: Rgb) -> bool {
    p.0 <= CHAN_ONE && p.1 <= CHAN_ONE && p.2 <= CHAN_ONE
}

pub open spec fn image_ok(img: Seq<Rgb>) -> bool {
    forall|t: int| 0 <= t < img.len() ==> rgb_ok(#[trigger] img[t])
}

/// One channel of a point, by position.
pub open spec fn channel(p: Rgb, ch: int) -> u64 {
    if ch == 0 {
        p.0
    } else if ch == 1 {
        p.1
    } else {
        p.2
    }
}

/// Sum of one channel over the referenced pixels.
pub open spec fn sum_ref_channel(refs: Seq<usize>, img: Seq<Rgb>, ch: int) -> int
    decreases refs.len(),
{
    if refs.len() == 0 {
        0
    } else {
        sum_ref_channel(refs.drop_last(), img, ch) + channel(img[refs.last() as int], ch)
    }
}

/// One channel of the white-balance correction for a face: the mean of the
/// reference pixels, at least one fixed-point unit; a face without reference
/// pixels gets the neutral correction `CHAN_ONE` (1.0).
pub open spec fn wb_chan(refs: Seq<usize>, img: Seq<Rgb>, ch: int) -> int {
    if refs.len() == 0 {
        CHAN_ONE as int
    } else {
        let m = sum_ref_channel(refs, img, ch) / refs.len() as int;
        if m < 1 {
            1
        } else {
            m
        }
    }
}

/// A corrected channel: the raw channel divided by the correction, in fixed
/// point, capped at `CORR_MAX`.
pub open spec fn correct_chan(ch: u64, wb: int) -> int {
    let v = (ch * CHAN_ONE) as int / wb;
    if v > CORR_MAX as int {
        CORR_MAX as int
    } else {
        v
    }
}

pub open spec fn wb_of(refs: Seq<usize>, img: Seq<Rgb>) -> (int, int, int) {
    (wb_chan(refs, img, 0), wb_chan(refs, img, 1), wb_chan(refs, img, 2))
}

pub open spec fn point_as_ints(p: Point) -> (int, int, int) {
    (p.0 as int, p.1 as int, p.2 as int)
}

/// The corrected observation point for a raw pixel under a correction.
pub open spec fn corrected_pt(p: Rgb, wb: (int, int, int)) -> Point {
    (
        correct_chan(p.0, wb.0) as u64,
        correct_chan(p.1, wb.1) as u64,
        correct_chan(p.2, wb.2) as u64,
    )
}

fn correct_channel(ch: u64, wb: u64) -> (r: u64)
    requires
        ch <= CHAN_ONE,
        wb >= 1,
    ensures
        r as int == correct_chan(ch, wb as int),
        r <= CORR_MAX,
{
    let v = ch * CHAN_ONE / wb;
    if v > CORR_MAX {
        CORR_MAX
    } else {
        v
    }
}

proof fn lemma_norm_le(v: int, d: int, tot: int, cc: int, ff: int)
    requires
        0 <= v <= tot,
        0 <= d <= cc,
        1 <= ff,
        1 <= tot,
        1 <= cc,
    ensures
        tot * cc * ff >= 1,
        0 <= (v * d * (CONF_ONE as int)) / (tot * cc * ff),
        (v * d * (CONF_ONE as int)) / (tot * cc * ff) <= CONF_ONE as int,
{
    let numer = v * d * (CONF_ONE as int);
    let denom = tot * cc * ff;
    assert(denom >= 1 && numer >= 0 && numer <= denom * (CONF_ONE as int)) by (nonlinear_arith)
        requires
            0 <= v <= tot,
            0 <= d <= cc,
            1 <= ff,
            1 <= tot,
            1 <= cc,
            numer == v * d * (CONF_ONE as int),
            denom == tot * cc * ff,
    ;
    lemma_div_is_ordered(numer, denom * (CONF_ONE as int), denom);
    lemma_div_multiples_vanish(CONF_ONE as int, denom);
    lemma_div_is_ordered(0, numer, denom);
    assert(0int / denom == 0) by (nonlinear_arith)
        requires
            denom >= 1,
    ;
}

/// The image indices the assignment gives to slot `s`, in image order.
pub open spec fn sticker_indices(asg: Seq<Pixel>, s: int) -> Seq<usize>
    decreases asg.len(),
{
    if asg.len() == 0 {
        Seq::empty()
    } else {
        let rest = sticker_indices(asg.drop_last(), s);
        if asg.last() == Pixel::Sticker(s as usize) && 0 <= s {
            rest.push((asg.len() - 1) as usize)
        } else {
            rest
        }
    }
}

/// The image indices the assignment reserves as lighting reference for the
/// face of color `f`, in image order.
pub open spec fn wb_indices(asg: Seq<Pixel>, f: int) -> Seq<usize>
    decreases asg.len(),
{
    if asg.len() == 0 {
        Seq::empty()
    } else {
        let rest = wb_indices(asg.drop_last(), f);
        if asg.last() == Pixel::WhiteBalance(f as usize) && 0 <= f {
            rest.push((asg.len() - 1) as usize)
        } else {
            rest
        }
    }
}

spec fn built_indices(pbs: Seq<Vec<SlotPixel>>, s: int) -> Seq<usize> {
    Seq::new(pbs[s]@.len(), |p: int| pbs[s]@[p].idx)
}

proof fn lemma_sticker_indices_step(asg: Seq<Pixel>, idx: int, s: int)
    requires
        0 <= idx < asg.len(),
    ensures
        sticker_indices(asg.take(idx + 1), s) == if asg[idx] == Pixel::Sticker(s as usize) && 0
            <= s {
            sticker_indices(asg.take(idx), s).push(idx as usize)
        } else {
            sticker_indices(asg.take(idx), s)
        },
{
    assert(asg.take(idx + 1).drop_last() =~= asg.take(idx));
    assert(asg.take(idx + 1).last() == asg[idx]);
}

proof fn lemma_wb_indices_step(asg: Seq<Pixel>, idx: int, f: int)
    requires
        0 <= idx < asg.len(),
    ensures
        wb_indices(asg.take(idx + 1), f) == if asg[idx] == Pixel::WhiteBalance(f as usize) && 0
            <= f {
            wb_indices(asg.take(idx), f).push(idx as usize)
        } else {
            wb_indices(asg.take(idx), f)
        },
{
    assert(asg.take(idx + 1).drop_last() =~= asg.take(idx));
    assert(asg.take(idx + 1).last() == asg[idx]);
}

spec fn slot_pixel_wf(sp: &SlotPixel, ncol: int, isz: int) -> bool {
    &&& sp.idx < isz
    &&& sp.stores@.len() == ncol
    &&& forall|c: int| 0 <= c < sp.stores@.len() ==> (#[trigger] sp.stores@[c]).wf()
}

/// The calibrated state of the engine: one observation store per slot pixel
/// per color, plus the lighting reference pixels of each face.
#[derive(Debug, Clone)]
pub struct Inference {
    pub pixels_by_sticker: Vec<Vec<SlotPixel>>,
    pub white_balance_by_face: Vec<Vec<usize>>,
    pub num_colors: usize,
    pub image_size: usize,
}

impl Inference {
    pub closed spec fn wf(&self) -> bool {
        &&& 1 <= self.num_colors <= 0x10000
        &&& self.pixels_by_sticker@.len() <= 0x10000
        &&& self.image_size <= 0x1000_0000
        &&& self.white_balance_by_face@.len() == self.num_colors
        &&& forall|f: int|
            0 <= f < self.white_balance_by_face@.len() ==> (
            #[trigger] self.white_balance_by_face@[f])@.len() <= self.image_size
        &&& forall|f: int, t: int|
            0 <= f < self.white_balance_by_face@.len() && 0 <= t
                < self.white_balance_by_face@[f]@.len() ==> (
            #[trigger] self.white_balance_by_face@[f]@[t]) < self.image_size
        &&& forall|s: int, p: int|
            0 <= s < self.pixels_by_sticker@.len() && 0 <= p < self.pixels_by_sticker@[s]@.len()
                ==> slot_pixel_wf(
                &(#[trigger] self.pixels_by_sticker@[s]@[p]),
                self.num_colors as int,
                self.image_size as int,
            )
    }

    pub closed spec fn slot_count(&self) -> int {
        self.pixels_by_sticker@.len() as int
    }

    pub closed spec fn colors(&self) -> int {
        self.num_colors as int
    }

    pub closed spec fn size(&self) -> int {
        self.image_size as int
    }

    /// The contents of the store for slot `s`, pixel `p`, color `c`.
    pub closed spec fn store_at(&self, s: int, p: int, c: int) -> Seq<Point> {
        self.pixels_by_sticker@[s]@[p].stores@[c]@
    }

    /// The image index of pixel `p` of slot `s`.
    pub closed spec fn idx_at(&self, s: int, p: int) -> int {
        self.pixels_by_sticker@[s]@[p].idx as int
    }

    /// How many pixels observe slot `s`.
    pub closed spec fn pixel_count(&self, s: int) -> int {
        self.pixels_by_sticker@[s]@.len() as int
    }

    /// The lighting reference pixels of the face with color id `f`.
    pub closed spec fn wb_refs(&self, f: int) -> Seq<usize> {
        self.white_balance_by_face@[f]@
    }

    /// The image indices of slot `s`'s pixels, in order.
    pub closed spec fn slot_indices(&self, s: int) -> Seq<usize> {
        Seq::new(
            self.pixels_by_sticker@[s]@.len(),
            |p: int| self.pixels_by_sticker@[s]@[p].idx,
        )
    }

    /// Size caps under which the persisted form reads back: per-slot pixel
    /// lists and observation stores small enough for the decoder's checks.
    pub open spec fn decode_sized(&self) -> bool {
        &&& forall|s: int|
            0 <= s < self.slot_count() ==> #[trigger] self.pixel_count(s) <= 0x1000_0000
        &&& forall|s: int, p: int, c: int|
            0 <= s < self.slot_count() && 0 <= p < self.pixel_count(s) && 0 <= c < self.colors()
                ==> (#[trigger] self.store_at(s, p, c)).len() <= 0xFFFF_FFFF
    }

    /// Builds the engine from the pixel role assignment: one empty store per
    /// (slot pixel, color), and the reference-pixel list of each face. Each
    /// slot's pixel list is exactly the assignment's indices for that slot,
    /// in image order, and likewise each face's reference list.
    pub fn new(assignment: &Vec<Pixel>, facelet_count: usize, num_colors: usize) -> (r: Inference)
        requires
            1 <= num_colors <= 0x10000,
            facelet_count <= 0x10000,
            assignment@.len() <= 0x1000_0000,
            forall|t: int| 0 <= t < assignment@.len() ==> match #[trigger] assignment@[t] {
                Pixel::Unassigned => true,
                Pixel::WhiteBalance(f) => f < num_colors,
                Pixel::Sticker(s) => s < facelet_count,
            },
        ensures
            r.wf(),
            r.slot_count() == facelet_count,
            r.colors() == num_colors,
            r.size() == assignment@.len(),
            forall|s: int, p: int, c: int|
                0 <= s < r.slot_count() && 0 <= p < r.pixel_count(s) && 0 <= c < r.colors()
                    ==> (#[trigger] r.store_at(s, p, c)).len() == 0,
            forall|s: int, p: int|
                0 <= s < r.slot_count() && 0 <= p < r.pixel_count(s) ==> assignment@[
                    #[trigger] r.idx_at(s, p)] == Pixel::Sticker(s as usize),
            forall|f: int, t: int|
                0 <= f < r.colors() && 0 <= t < r.wb_refs(f).len() ==> assignment@[(
                #[trigger] r.wb_refs(f)[t]) as int] == Pixel::WhiteBalance(f as usize),
            forall|s: int|
                0 <= s < r.slot_count() ==> r.slot_indices(s) == sticker_indices(
                    assignment@,
                    s,
                ),
            forall|f: int|
                0 <= f < r.colors() ==> r.wb_refs(f) == wb_indices(assignment@, f),
    {
        let image_size = assignment.len();
        let mut pixels_by_sticker: Vec<Vec<SlotPixel>> = Vec::new();
        let mut s: usize = 0;
        while s < facelet_count
            invariant
                s <= facelet_count,
                pixels_by_sticker@.len() == s,
                forall|t: int| 0 <= t < s ==> (#[trigger] pixels_by_sticker@[t])@.len() == 0,
            decreases facelet_count - s,
        {
            pixels_by_sticker.push(Vec::new());
            s = s + 1;
        }

        let mut white_balance_by_face: Vec<Vec<usize>> = Vec::new();
        let mut f: usize = 0;
        while f < num_colors
            invariant
                f <= num_colors,
                white_balance_by_face@.len() == f,
                forall|t: int| 0 <= t < f ==> (#[trigger] white_balance_by_face@[t])@.len() == 0,
            decreases num_colors - f,
        {
            white_balance_by_face.push(Vec::new());
            f = f + 1;
        }

        let mut idx: usize = 0;
        proof {
            assert(assignment@.take(0) =~= Seq::<Pixel>::empty());
            assert forall|s2: int| 0 <= s2 < facelet_count implies built_indices(
                pixels_by_sticker@,
                s2,
            ) == sticker_indices(assignment@.take(0), s2) by {
                assert(built_indices(pixels_by_sticker@, s2) =~= Seq::<usize>::empty());
            }
            assert forall|f2: int| 0 <= f2 < num_colors implies (
            #[trigger] white_balance_by_face@[f2])@ == wb_indices(assignment@.take(0), f2) by {
                assert(white_balance_by_face@[f2]@ =~= Seq::<usize>::empty());
            }
        }
        while idx < image_size
            invariant
                idx <= image_size,
                image_size == assignment@.len(),
                image_size <= 0x1000_0000,
                1 <= num_colors <= 0x10000,
                facelet_count <= 0x10000,
                pixels_by_sticker@.len() == facelet_count,
                white_balance_by_face@.len() == num_colors,
                forall|t: int| 0 <= t < assignment@.len() ==> match #[trigger] assignment@[t] {
                    Pixel::Unassigned => true,
                    Pixel::WhiteBalance(ff) => ff < num_colors,
                    Pixel::Sticker(ss) => ss < facelet_count,
                },
                forall|f2: int|
                    0 <= f2 < white_balance_by_face@.len() ==> (
                    #[trigger] white_balance_by_face@[f2])@.len() <= idx,
                forall|f2: int, t: int|
                    0 <= f2 < white_balance_by_face@.len() && 0 <= t
                        < white_balance_by_face@[f2]@.len() ==> (
                    #[trigger] white_balance_by_face@[f2]@[t]) < idx,
                forall|f2: int, t: int|
                    0 <= f2 < white_balance_by_face@.len() && 0 <= t
                        < white_balance_by_face@[f2]@.len() ==> assignment@[(
                    #[trigger] white_balance_by_face@[f2]@[t]) as int] == Pixel::WhiteBalance(
                        f2 as usize,
                    ),
                forall|s2: int, p: int|
                    0 <= s2 < pixels_by_sticker@.len() && 0 <= p < pixels_by_sticker@[s2]@.len()
                        ==> slot_pixel_wf(
                        &(#[trigger] pixels_by_sticker@[s2]@[p]),
                        num_colors as int,
                        image_size as int,
                    ),
                forall|s2: int, p: int|
                    0 <= s2 < pixels_by_sticker@.len() && 0 <= p < pixels_by_sticker@[s2]@.len()
                        ==> assignment@[(#[trigger] pixels_by_sticker@[s2]@[p]).idx as int]
                        == Pixel::Sticker(s2 as usize),
                forall|s2: int, p: int, c: int|
                    0 <= s2 < pixels_by_sticker@.len() && 0 <= p < pixels_by_sticker@[s2]@.len()
                        && 0 <= c < pixels_by_sticker@[s2]@[p].stores@.len() ==> (
                    #[trigger] pixels_by_sticker@[s2]@[p].stores@[c])@.len() == 0,
                forall|s2: int|
                    0 <= s2 < facelet_count ==> built_indices(pixels_by_sticker@, s2)
                        == sticker_indices(assignment@.take(idx as int), s2),
                forall|f2: int|
                    0 <= f2 < num_colors ==> (#[trigger] white_balance_by_face@[f2])@
                        == wb_indices(assignment@.take(idx as int), f2),
            decreases image_size - idx,
        {
            let ghost pre_pbs = pixels_by_sticker@;
            let ghost pre_wb = white_balance_by_face@;
            match assignment[idx] {
                Pixel::Unassigned => {},
                Pixel::WhiteBalance(fc) => {
                    white_balance_by_face[fc].push(idx);
                },
                Pixel::Sticker(sc) => {
                    let mut stores: Vec<ColorStore> = Vec::new();
                    let mut c: usize = 0;
                    while c < num_colors
                        invariant
                            c <= num_colors,
                            stores@.len() == c,
                            forall|t: int|
                                0 <= t < c ==> (#[trigger] stores@[t]).wf() && stores@[t]@.len()
                                    == 0,
                        decreases num_colors - c,
                    {
                        stores.push(ColorStore::new());
                        c = c + 1;
                    }
                    pixels_by_sticker[sc].push(SlotPixel { idx, stores });
                },
            }
            proof {
                assert forall|s2: int| 0 <= s2 < facelet_count implies built_indices(
                    pixels_by_sticker@,
                    s2,
                ) == sticker_indices(assignment@.take(idx + 1), s2) by {
                    lemma_sticker_indices_step(assignment@, idx as int, s2);
                    match assignment@[idx as int] {
                        Pixel::Sticker(sc2) => {
                            if s2 == sc2 {
                                assert(built_indices(pixels_by_sticker@, s2) =~= built_indices(
                                    pre_pbs,
                                    s2,
                                ).push(idx));
                            } else {
                                assert(pixels_by_sticker@[s2] == pre_pbs[s2]);
                                assert(built_indices(pixels_by_sticker@, s2) =~= built_indices(
                                    pre_pbs,
                                    s2,
                                ));
                            }
                        },
                        _ => {
                            assert(pixels_by_sticker@[s2] == pre_pbs[s2]);
                            assert(built_indices(pixels_by_sticker@, s2) =~= built_indices(
                                pre_pbs,
                                s2,
                            ));
                        },
                    }
                }
                assert forall|f2: int| 0 <= f2 < num_colors implies (
                #[trigger] white_balance_by_face@[f2])@ == wb_indices(
                    assignment@.take(idx + 1),
                    f2,
                ) by {
                    lemma_wb_indices_step(assignment@, idx as int, f2);
                    match assignment@[idx as int] {
                        Pixel::WhiteBalance(fc2) => {
                            if f2 == fc2 {
                                assert(white_balance_by_face@[f2]@ =~= pre_wb[f2]@.push(idx));
                            } else {
                                assert(white_balance_by_face@[f2] == pre_wb[f2]);
                            }
                        },
                        _ => {
                            assert(white_balance_by_face@[f2] == pre_wb[f2]);
                        },
                    }
                }
            }
            idx = idx + 1;
        }

        proof {
            assert(assignment@.take(image_size as int) =~= assignment@);
        }
        let r = Inference { pixels_by_sticker, white_balance_by_face, num_colors, image_size };
        proof {
            assert forall|s2: int| 0 <= s2 < r.slot_count() implies r.slot_indices(s2)
                == sticker_indices(assignment@, s2) by {
                assert(r.slot_indices(s2) =~= built_indices(r.pixels_by_sticker@, s2));
            }
        }
        r
    }

    /// The per-face white-balance corrections for this image: channel means
    /// of each face's reference pixels, neutral where a face has none.
    fn white_balance(&self, image: &Vec<Rgb>) -> (r: Vec<(u64, u64, u64)>)
        requires
            self.wf(),
            image@.len() == self.size(),
            image_ok(image@),
        ensures
            r@.len() == self.colors(),
            forall|f: int|
                0 <= f < r@.len() ==> point_as_ints(#[trigger] r@[f]) == wb_of(
                    self.wb_refs(f),
                    image@,
                ),
            forall|f: int| 0 <= f < r@.len() ==> (#[trigger] r@[f]).0 >= 1 && r@[f].1 >= 1
                && r@[f].2 >= 1,
    {
        let mut out: Vec<(u64, u64, u64)> = Vec::new();
        let mut f: usize = 0;
        while f < self.num_colors
            invariant
                self.wf(),
                image@.len() == self.size(),
                image_ok(image@),
                f <= self.num_colors,
                out@.len() == f,
                forall|f2: int|
                    0 <= f2 < f ==> point_as_ints(#[trigger] out@[f2]) == wb_of(
                        self.wb_refs(f2),
                        image@,
                    ),
                forall|f2: int| 0 <= f2 < f ==> (#[trigger] out@[f2]).0 >= 1 && out@[f2].1 >= 1
                    && out@[f2].2 >= 1,
            decreases self.num_colors - f,
        {
            let refs = &self.white_balance_by_face[f];
            let len = refs.len();
            if len == 0 {
                out.push((CHAN_ONE, CHAN_ONE, CHAN_ONE));
            } else {
                let mut s0: u64 = 0;
                let mut s1: u64 = 0;
                let mut s2: u64 = 0;
                let mut t: usize = 0;
                while t < len
                    invariant
                        self.wf(),
                        image@.len() == self.size(),
                        image_ok(image@),
                        f < self.num_colors,
                        refs@ == self.wb_refs(f as int),
                        len == refs@.len(),
                        len <= self.size(),
                        t <= len,
                        s0 == sum_ref_channel(refs@.take(t as int), image@, 0),
                        s1 == sum_ref_channel(refs@.take(t as int), image@, 1),
                        s2 == sum_ref_channel(refs@.take(t as int), image@, 2),
                        s0 <= t * CHAN_ONE,
                        s1 <= t * CHAN_ONE,
                        s2 <= t * CHAN_ONE,
                    decreases len - t,
                {
                    let ix = refs[t];
                    let px = image[ix];
                    proof {
                        assert(rgb_ok(image@[ix as int]));
                        assert(refs@.take(t + 1).drop_last() =~= refs@.take(t as int));
                        assert(refs@.take(t + 1).last() == refs@[t as int]);
                    }
                    s0 = s0 + px.0;
                    s1 = s1 + px.1;
                    s2 = s2 + px.2;
                    t = t + 1;
                }
                proof {
                    assert(refs@.take(len as int) =~= refs@);
                }
                let m0 = s0 / (len as u64);
                let m1 = s1 / (len as u64);
                let m2 = s2 / (len as u64);
                let w0 = if m0 < 1 {
                    1
                } else {
                    m0
                };
                let w1 = if m1 < 1 {
                    1
                } else {
                    m1
                };
                let w2 = if m2 < 1 {
                    1
                } else {
                    m2
                };
                out.push((w0, w1, w2));
            }
            f = f + 1;
        }
        out
    }

    /// Appends one corrected point to the store of slot `s`, pixel `p`,
    /// color `c`; every other store and all structure stay as they were.
    fn record(&mut self, s: usize, p: usize, c: usize, pt: Point)
        requires
            old(self).wf(),
            s < old(self).slot_count(),
            p < old(self).pixel_count(s as int),
            c < old(self).colors(),
            point_ok(pt),
        ensures
            final(self).wf(),
            final(self).slot_count() == old(self).slot_count(),
            final(self).colors() == old(self).colors(),
            final(self).size() == old(self).size(),
            forall|f: int|
                0 <= f < final(self).colors() ==> final(self).wb_refs(f) == old(self).wb_refs(f),
            forall|s2: int|
                0 <= s2 < final(self).slot_count() ==> final(self).pixel_count(s2) == old(
                    self,
                ).pixel_count(s2),
            forall|s2: int, p2: int|
                0 <= s2 < final(self).slot_count() && 0 <= p2 < final(self).pixel_count(s2)
                    ==> final(self).idx_at(s2, p2) == old(self).idx_at(s2, p2),
            final(self).store_at(s as int, p as int, c as int) == old(self).store_at(
                s as int,
                p as int,
                c as int,
            ).push(pt),
            forall|s2: int, p2: int, c2: int|
                0 <= s2 < final(self).slot_count() && 0 <= p2 < final(self).pixel_count(s2) && 0
                    <= c2 < final(self).colors() && !(s2 == s && p2 == p && c2 == c) ==> (
                #[trigger] final(self).store_at(s2, p2, c2)) == old(self).store_at(s2, p2, c2),
    {
        let row = &mut self.pixels_by_sticker[s];
        let spix = &mut row[p];
        let st = &mut spix.stores[c];
        st.push(pt);
    }

    /// Calibration: for every slot pixel, white-balance-correct its raw
    /// value with the slot's face correction and append it to that slot's
    /// store for the color the known state puts there. The only mutator.
    pub fn calibrate(&mut self, image: &Vec<Rgb>, state: &Perm, model: &GroupModel)
        requires
            old(self).wf(),
            model.wf(),
            state.valid(model.facelet_count()),
            old(self).slot_count() == model.facelet_count(),
            old(self).colors() == model.num_colors,
            image@.len() == old(self).size(),
            image_ok(image@),
        ensures
            final(self).wf(),
            final(self).slot_count() == old(self).slot_count(),
            final(self).colors() == old(self).colors(),
            final(self).size() == old(self).size(),
            forall|f: int|
                0 <= f < final(self).colors() ==> final(self).wb_refs(f) == old(self).wb_refs(f),
            forall|s2: int|
                0 <= s2 < final(self).slot_count() ==> final(self).pixel_count(s2) == old(
                    self,
                ).pixel_count(s2),
            forall|s2: int, p2: int|
                0 <= s2 < final(self).slot_count() && 0 <= p2 < final(self).pixel_count(s2)
                    ==> final(self).idx_at(s2, p2) == old(self).idx_at(s2, p2),
            forall|s2: int, p2: int, c2: int|
                0 <= s2 < final(self).slot_count() && 0 <= p2 < final(self).pixel_count(s2) && 0
                    <= c2 < final(self).colors() ==> (#[trigger] final(self).store_at(s2, p2, c2))
                    == if c2 == model.facelet_colors@[state.map@[s2] as int] {
                    old(self).store_at(s2, p2, c2).push(
                        corrected_pt(
                            image@[old(self).idx_at(s2, p2)],
                            wb_of(
                                old(self).wb_refs(model.facelet_colors@[s2] as int),
                                image@,
                            ),
                        ),
                    )
                } else {
                    old(self).store_at(s2, p2, c2)
                },
    {
        let wbv = self.white_balance(image);
        let n_slots = self.pixels_by_sticker.len();
        let mut s: usize = 0;
        while s < n_slots
            invariant
                self.wf(),
                model.wf(),
                state.valid(model.facelet_count()),
                image@.len() == self.size(),
                image_ok(image@),
                s <= n_slots,
                n_slots == self.slot_count(),
                self.slot_count() == old(self).slot_count(),
                self.slot_count() == model.facelet_count(),
                self.colors() == old(self).colors(),
                self.colors() == model.num_colors,
                self.size() == old(self).size(),
                wbv@.len() == self.colors(),
                forall|f: int|
                    0 <= f < wbv@.len() ==> point_as_ints(#[trigger] wbv@[f]) == wb_of(
                        old(self).wb_refs(f),
                        image@,
                    ),
                forall|f: int| 0 <= f < wbv@.len() ==> (#[trigger] wbv@[f]).0 >= 1 && wbv@[f].1
                    >= 1 && wbv@[f].2 >= 1,
                forall|f: int|
                    0 <= f < self.colors() ==> self.wb_refs(f) == old(self).wb_refs(f),
                forall|s2: int|
                    0 <= s2 < self.slot_count() ==> self.pixel_count(s2) == old(
                        self,
                    ).pixel_count(s2),
                forall|s2: int, p2: int|
                    0 <= s2 < self.slot_count() && 0 <= p2 < self.pixel_count(s2) ==> self.idx_at(
                        s2,
                        p2,
                    ) == old(self).idx_at(s2, p2),
                forall|s2: int, p2: int, c2: int|
                    0 <= s2 < s && 0 <= p2 < self.pixel_count(s2) && 0 <= c2 < self.colors()
                        ==> (#[trigger] self.store_at(s2, p2, c2)) == if c2
                        == model.facelet_colors@[state.map@[s2] as int] {
                        old(self).store_at(s2, p2, c2).push(
                            corrected_pt(
                                image@[old(self).idx_at(s2, p2)],
                                wb_of(
                                    old(self).wb_refs(model.facelet_colors@[s2] as int),
                                    image@,
                                ),
                            ),
                        )
                    } else {
                        old(self).store_at(s2, p2, c2)
                    },
                forall|s2: int, p2: int, c2: int|
                    s <= s2 < self.slot_count() && 0 <= p2 < self.pixel_count(s2) && 0 <= c2
                        < self.colors() ==> (#[trigger] self.store_at(s2, p2, c2)) == old(
                        self,
                    ).store_at(s2, p2, c2),
            decreases n_slots - s,
        {
            let fc = model.facelet_colors[s];
            let wb = wbv[fc];
            let src = state.map[s];
            let color = model.facelet_colors[src];
            let np = self.pixels_by_sticker[s].len();
            let mut p: usize = 0;
            while p < np
                invariant
                    self.wf(),
                    model.wf(),
                    state.valid(model.facelet_count()),
                    image@.len() == self.size(),
                    image_ok(image@),
                    s < n_slots,
                    p <= np,
                    np == self.pixel_count(s as int),
                    n_slots == self.slot_count(),
                    self.slot_count() == old(self).slot_count(),
                    self.slot_count() == model.facelet_count(),
                    self.colors() == old(self).colors(),
                    self.colors() == model.num_colors,
                    self.size() == old(self).size(),
                    fc == model.facelet_colors@[s as int],
                    src == state.map@[s as int],
                    color == model.facelet_colors@[src as int],
                    point_as_ints(wb) == wb_of(old(self).wb_refs(fc as int), image@),
                    wb.0 >= 1 && wb.1 >= 1 && wb.2 >= 1,
                    forall|f: int|
                        0 <= f < self.colors() ==> self.wb_refs(f) == old(self).wb_refs(f),
                    forall|s2: int|
                        0 <= s2 < self.slot_count() ==> self.pixel_count(s2) == old(
                            self,
                        ).pixel_count(s2),
                    forall|s2: int, p2: int|
                        0 <= s2 < self.slot_count() && 0 <= p2 < self.pixel_count(s2)
                            ==> self.idx_at(s2, p2) == old(self).idx_at(s2, p2),
                    forall|s2: int, p2: int, c2: int|
                        0 <= s2 < s && 0 <= p2 < self.pixel_count(s2) && 0 <= c2 < self.colors()
                            ==> (#[trigger] self.store_at(s2, p2, c2)) == if c2
                            == model.facelet_colors@[state.map@[s2] as int] {
                            old(self).store_at(s2, p2, c2).push(
                                corrected_pt(
                                    image@[old(self).idx_at(s2, p2)],
                                    wb_of(
                                        old(self).wb_refs(model.facelet_colors@[s2] as int),
                                        image@,
                                    ),
                                ),
                            )
                        } else {
                            old(self).store_at(s2, p2, c2)
                        },
                    forall|p2: int, c2: int|
                        0 <= p2 < p && 0 <= c2 < self.colors() ==> (#[trigger] self.store_at(
                            s as int,
                            p2,
                            c2,
                        )) == if c2 == color {
                            old(self).store_at(s as int, p2, c2).push(
                                corrected_pt(
                                    image@[old(self).idx_at(s as int, p2)],
                                    wb_of(old(self).wb_refs(fc as int), image@),
                                ),
                            )
                        } else {
                            old(self).store_at(s as int, p2, c2)
                        },
                    forall|p2: int, c2: int|
                        p <= p2 < self.pixel_count(s as int) && 0 <= c2 < self.colors() ==> (
                        #[trigger] self.store_at(s as int, p2, c2)) == old(self).store_at(
                            s as int,
                            p2,
                            c2,
                        ),
                    forall|s2: int, p2: int, c2: int|
                        s < s2 < self.slot_count() && 0 <= p2 < self.pixel_count(s2) && 0 <= c2
                            < self.colors() ==> (#[trigger] self.store_at(s2, p2, c2)) == old(
                            self,
                        ).store_at(s2, p2, c2),
                decreases np - p,
            {
                let ix = self.pixels_by_sticker[s][p].idx;
                let px = image[ix];
                let pt = (
                    correct_channel(px.0, wb.0),
                    correct_channel(px.1, wb.1),
                    correct_channel(px.2, wb.2),
                );
                proof {
                    assert(rgb_ok(image@[ix as int]));
                    assert(pt == corrected_pt(
                        image@[old(self).idx_at(s as int, p as int)],
                        wb_of(old(self).wb_refs(fc as int), image@),
                    ));
                }
                self.record(s, p, color, pt);
                p = p + 1;
            }
            s = s + 1;
        }
    }

    /// Image index `t` is read by this engine: it belongs to some slot
    /// pixel or to some face's lighting reference set.
    pub open spec fn is_assigned_location(&self, t: int) -> bool {
        ||| exists|s: int, p: int|
            0 <= s < self.slot_count() && 0 <= p < self.pixel_count(s) && #[trigger] self.idx_at(
                s,
                p,
            ) == t
        ||| exists|f: int, i: int|
            0 <= f < self.colors() && 0 <= i < self.wb_refs(f).len() && (
            #[trigger] self.wb_refs(f)[i]) as int == t
    }

    /// Which pixel indices this engine reads: exactly the slot pixels and
    /// the lighting reference pixels; everything else is unassigned.
    pub fn assignment_locations(&self) -> (r: Vec<bool>)
        requires
            self.wf(),
        ensures
            r@.len() == self.size(),
            forall|t: int| 0 <= t < r@.len() ==> ((#[trigger] r@[t]) <==> self.is_assigned_location(
                t,
            )),
    {
        let mut out: Vec<bool> = Vec::new();
        let mut t: usize = 0;
        let n = self.image_size;
        while t < n
            invariant
                t <= n,
                out@.len() == t,
                forall|t2: int| 0 <= t2 < t ==> !(#[trigger] out@[t2]),
            decreases n - t,
        {
            out.push(false);
            t = t + 1;
        }

        let n_slots = self.pixels_by_sticker.len();
        let mut s: usize = 0;
        while s < n_slots
            invariant
                self.wf(),
                s <= n_slots,
                n_slots == self.slot_count(),
                n == self.image_size,
                out@.len() == n,
                forall|t2: int| 0 <= t2 < n && #[trigger] out@[t2] ==> self.is_assigned_location(
                    t2,
                ),
                forall|s2: int, p2: int|
                    0 <= s2 < s && 0 <= p2 < self.pixel_count(s2) ==> out@[self.idx_at(s2, p2)],
            decreases n_slots - s,
        {
            let np = self.pixels_by_sticker[s].len();
            let mut p: usize = 0;
            while p < np
                invariant
                    self.wf(),
                    s < n_slots,
                    n_slots == self.slot_count(),
                    np == self.pixel_count(s as int),
                    p <= np,
                    n == self.image_size,
                    out@.len() == n,
                    forall|t2: int|
                        0 <= t2 < n && #[trigger] out@[t2] ==> self.is_assigned_location(t2),
                    forall|s2: int, p2: int|
                        0 <= s2 < s && 0 <= p2 < self.pixel_count(s2) ==> out@[self.idx_at(
                            s2,
                            p2,
                        )],
                    forall|p2: int| 0 <= p2 < p ==> out@[self.idx_at(s as int, p2)],
                decreases np - p,
            {
                let ix = self.pixels_by_sticker[s][p].idx;
                proof {
                    assert(self.is_assigned_location(ix as int)) by {
                        assert(self.idx_at(s as int, p as int) == ix);
                    }
                }
                out.set(ix, true);
                p = p + 1;
            }
            s = s + 1;
        }

        let ncol = self.white_balance_by_face.len();
        let mut f: usize = 0;
        while f < ncol
            invariant
                self.wf(),
                f <= ncol,
                ncol == self.colors(),
                n == self.image_size,
                out@.len() == n,
                forall|t2: int| 0 <= t2 < n && #[trigger] out@[t2] ==> self.is_assigned_location(
                    t2,
                ),
                forall|s2: int, p2: int|
                    0 <= s2 < self.slot_count() && 0 <= p2 < self.pixel_count(s2) ==> out@[
                        self.idx_at(s2, p2)],
                forall|f2: int, t2: int|
                    0 <= f2 < f && 0 <= t2 < self.wb_refs(f2).len() ==> out@[(
                    #[trigger] self.wb_refs(f2)[t2]) as int],
            decreases ncol - f,
        {
            let nr = self.white_balance_by_face[f].len();
            let mut t2: usize = 0;
            while t2 < nr
                invariant
                    self.wf(),
                    f < ncol,
                    ncol == self.colors(),
                    nr == self.wb_refs(f as int).len(),
                    t2 <= nr,
                    n == self.image_size,
                    out@.len() == n,
                    forall|t3: int|
                        0 <= t3 < n && #[trigger] out@[t3] ==> self.is_assigned_location(t3),
                    forall|s2: int, p2: int|
                        0 <= s2 < self.slot_count() && 0 <= p2 < self.pixel_count(s2) ==> out@[
                            self.idx_at(s2, p2)],
                    forall|f2: int, t3: int|
                        0 <= f2 < f && 0 <= t3 < self.wb_refs(f2).len() ==> out@[(
                        #[trigger] self.wb_refs(f2)[t3]) as int],
                    forall|t3: int| 0 <= t3 < t2 ==> out@[(self.wb_refs(f as int)[t3]) as int],
                decreases nr - t2,
            {
                let ix = self.white_balance_by_face[f][t2];
                proof {
                    assert(self.is_assigned_location(ix as int)) by {
                        assert(self.wb_refs(f as int)[t2 as int] == ix);
                    }
                }
                out.set(ix, true);
                t2 = t2 + 1;
            }
            f = f + 1;
        }
        proof {
            assert forall|t2: int|
                0 <= t2 < out@.len() && self.is_assigned_location(t2) implies out@[t2] by {
                if exists|s2: int, p2: int|
                    0 <= s2 < self.slot_count() && 0 <= p2 < self.pixel_count(s2)
                        && #[trigger] self.idx_at(s2, p2) == t2 {
                    let (s2, p2) = choose|s2: int, p2: int|
                        0 <= s2 < self.slot_count() && 0 <= p2 < self.pixel_count(s2)
                            && #[trigger] self.idx_at(s2, p2) == t2;
                    assert(out@[self.idx_at(s2, p2)]);
                } else {
                    let (f2, i2) = choose|f2: int, i2: int|
                        0 <= f2 < self.colors() && 0 <= i2 < self.wb_refs(f2).len() && (
                        #[trigger] self.wb_refs(f2)[i2]) as int == t2;
                    assert(out@[(self.wb_refs(f2)[i2]) as int]);
                }
            }
        }
        out
    }

    /// The white-balance-corrected query point pixel `p` of slot `s` puts
    /// to the stores, for this image.
    pub open spec fn query_of(&self, img: Seq<Rgb>, model: &GroupModel, s: int, p: int) -> Point {
        corrected_pt(
            img[self.idx_at(s, p)],
            wb_of(self.wb_refs(model.facelet_colors@[s] as int), img),
        )
    }

    /// The density sample pixel `p` of slot `s` contributes for color `c`.
    pub open spec fn sample_val(
        &self,
        img: Seq<Rgb>,
        model: &GroupModel,
        s: int,
        p: int,
        c: int,
    ) -> u64 {
        let st = self.store_at(s, p, c);
        let q = self.query_of(img, model, s, p);
        let n_eff = if st.len() > 0xFFFF_FFFF {
            0xFFFF_FFFF as int
        } else {
            st.len() as int
        };
        let k = crate::store::neighbor_count_spec(n_eff);
        crate::store::density_spec(
            k,
            n_eff,
            crate::store::kth_dist_spec(st, q, k) as int,
        ) as u64
    }

    /// The density samples slot `s` accumulates for color `c` from its
    /// first `p` pixels, in pixel order, skipping empty stores.
    pub open spec fn samples_upto(
        &self,
        img: Seq<Rgb>,
        model: &GroupModel,
        s: int,
        c: int,
        p: int,
    ) -> Seq<(u64, usize)>
        decreases p,
    {
        if p <= 0 {
            Seq::empty()
        } else {
            let rest = self.samples_upto(img, model, s, c, p - 1);
            if self.store_at(s, p - 1, c).len() > 0 {
                rest.push((self.sample_val(img, model, s, p - 1, c), 0usize))
            } else {
                rest
            }
        }
    }

    pub open spec fn samples_of(&self, img: Seq<Rgb>, model: &GroupModel, s: int, c: int) -> Seq<
        (u64, usize),
    > {
        self.samples_upto(img, model, s, c, self.pixel_count(s))
    }

    /// The representative confidence of color `c` at slot `s`: the sample
    /// at the fixed descending percentile, or nothing without samples.
    pub open spec fn rep_of(&self, img: Seq<Rgb>, model: &GroupModel, s: int, c: int) -> Option<
        u64,
    > {
        let smp = self.samples_of(img, model, s, c);
        if smp.len() == 0 {
            None
        } else {
            Some(
                crate::select::kth_key_desc(
                    smp,
                    smp.len() as int / (CONFIDENCE_PERCENTILE_DIV as int),
                ),
            )
        }
    }

    /// Sum of the representative confidences of the first `c` colors.
    pub open spec fn total_upto(&self, img: Seq<Rgb>, model: &GroupModel, s: int, c: int) -> int
        decreases c,
    {
        if c <= 0 {
            0
        } else {
            self.total_upto(img, model, s, c - 1) + match self.rep_of(img, model, s, c - 1) {
                Some(v) => v as int,
                None => 0,
            }
        }
    }

    /// How many of the first `c` colors have any samples at slot `s`.
    pub open spec fn data_upto(&self, img: Seq<Rgb>, model: &GroupModel, s: int, c: int) -> int
        decreases c,
    {
        if c <= 0 {
            0
        } else {
            self.data_upto(img, model, s, c - 1) + match self.rep_of(img, model, s, c - 1) {
                Some(_) => 1int,
                None => 0int,
            }
        }
    }

    /// The normalized confidence of color `c` at slot `s`: the slot's
    /// representative for `c`, scaled against the slot's total so that all
    /// confidences are comparable; colors without data, and slots with no
    /// data at all, get the fixed no-data constant.
    pub open spec fn conf_of(&self, img: Seq<Rgb>, model: &GroupModel, s: int, c: int) -> u64 {
        let total = self.total_upto(img, model, s, self.colors());
        let dd = self.data_upto(img, model, s, self.colors());
        let nd = (CONF_ONE as int / (self.colors() * self.slot_count())) as u64;
        if dd == 0 || total == 0 {
            nd
        } else {
            match self.rep_of(img, model, s, c) {
                None => nd,
                Some(v) => ((v * dd * CONF_ONE) / (total * self.colors()
                    * self.slot_count())) as u64,
            }
        }
    }

    /// Inference over a whole image. Every returned confidence is exactly
    /// `conf_of` for its slot and color — a function of the calibrated
    /// state, the image and the puzzle model alone, independent of the
    /// seed — and lies in `[0, CONF_ONE]`.
    pub fn infer(&self, image: &Vec<Rgb>, model: &GroupModel, seed: u64) -> (r: Vec<Vec<u64>>)
        requires
            self.wf(),
            model.wf(),
            self.slot_count() == model.facelet_count(),
            self.colors() == model.num_colors,
            image@.len() == self.size(),
            image_ok(image@),
        ensures
            r@.len() == self.slot_count(),
            forall|s: int| 0 <= s < r@.len() ==> (#[trigger] r@[s])@.len() == self.colors(),
            forall|s: int, c: int|
                0 <= s < r@.len() && 0 <= c < r@[s]@.len() ==> (#[trigger] r@[s]@[c]) <= CONF_ONE,
            forall|s: int, c: int|
                0 <= s < r@.len() && 0 <= c < r@[s]@.len() ==> (#[trigger] r@[s]@[c])
                    == self.conf_of(image@, model, s, c),
    {
        let mut rng = SeededRng::new(seed);
        let wbv = self.white_balance(image);
        let n_slots = self.pixels_by_sticker.len();
        let ncol = self.num_colors;
        let mut out: Vec<Vec<u64>> = Vec::new();
        let mut s: usize = 0;
        while s < n_slots
            invariant
                self.wf(),
                model.wf(),
                self.slot_count() == model.facelet_count(),
                self.colors() == model.num_colors,
                image@.len() == self.size(),
                image_ok(image@),
                s <= n_slots,
                n_slots == self.slot_count(),
                ncol == self.colors(),
                wbv@.len() == self.colors(),
                forall|f: int|
                    0 <= f < wbv@.len() ==> point_as_ints(#[trigger] wbv@[f]) == wb_of(
                        self.wb_refs(f),
                        image@,
                    ),
                forall|f: int| 0 <= f < wbv@.len() ==> (#[trigger] wbv@[f]).0 >= 1 && wbv@[f].1
                    >= 1 && wbv@[f].2 >= 1,
                out@.len() == s,
                forall|s2: int| 0 <= s2 < s ==> (#[trigger] out@[s2])@.len() == ncol,
                forall|s2: int, c2: int|
                    0 <= s2 < s && 0 <= c2 < out@[s2]@.len() ==> (#[trigger] out@[s2]@[c2])
                        <= CONF_ONE,
                forall|s2: int, c2: int|
                    0 <= s2 < s && 0 <= c2 < out@[s2]@.len() ==> (#[trigger] out@[s2]@[c2])
                        == self.conf_of(image@, model, s2, c2),
            decreases n_slots - s,
        {
            let fc = model.facelet_colors[s];
            let wb = wbv[fc];

            let mut samples: Vec<Vec<(u64, usize)>> = Vec::new();
            let mut c: usize = 0;
            while c < ncol
                invariant
                    c <= ncol,
                    samples@.len() == c,
                    forall|c2: int| 0 <= c2 < c ==> (#[trigger] samples@[c2])@.len() == 0,
                decreases ncol - c,
            {
                samples.push(Vec::new());
                c = c + 1;
            }
            proof {
                assert forall|c2: int| 0 <= c2 < ncol implies (#[trigger] samples@[c2])@
                    == self.samples_upto(image@, model, s as int, c2, 0) by {
                    assert(samples@[c2]@ =~= Seq::<(u64, usize)>::empty());
                }
            }

            let np = self.pixels_by_sticker[s].len();
            let mut p: usize = 0;
            while p < np
                invariant
                    self.wf(),
                    model.wf(),
                    self.slot_count() == model.facelet_count(),
                    self.colors() == model.num_colors,
                    image@.len() == self.size(),
                    image_ok(image@),
                    s < n_slots,
                    n_slots == self.slot_count(),
                    ncol == self.colors(),
                    np == self.pixel_count(s as int),
                    p <= np,
                    fc == model.facelet_colors@[s as int],
                    point_as_ints(wb) == wb_of(self.wb_refs(fc as int), image@),
                    wb.0 >= 1 && wb.1 >= 1 && wb.2 >= 1,
                    samples@.len() == ncol,
                    forall|c2: int, w: int|
                        0 <= c2 < samples@.len() && 0 <= w < samples@[c2]@.len() ==> (
                        #[trigger] samples@[c2]@[w]).0 <= DENSITY_MAX,
                    forall|c2: int|
                        0 <= c2 < ncol ==> (#[trigger] samples@[c2])@ == self.samples_upto(
                            image@,
                            model,
                            s as int,
                            c2,
                            p as int,
                        ),
                decreases np - p,
            {
                let ix = self.pixels_by_sticker[s][p].idx;
                let px = image[ix];
                proof {
                    assert(rgb_ok(image@[ix as int]));
                }
                let q: Point = (
                    correct_channel(px.0, wb.0),
                    correct_channel(px.1, wb.1),
                    correct_channel(px.2, wb.2),
                );
                proof {
                    assert(q == self.query_of(image@, model, s as int, p as int));
                }
                let mut c2: usize = 0;
                while c2 < ncol
                    invariant
                        self.wf(),
                        s < n_slots,
                        n_slots == self.slot_count(),
                        ncol == self.colors(),
                        np == self.pixel_count(s as int),
                        p < np,
                        c2 <= ncol,
                        point_ok(q),
                        q == self.query_of(image@, model, s as int, p as int),
                        samples@.len() == ncol,
                        forall|c3: int, w: int|
                            0 <= c3 < samples@.len() && 0 <= w < samples@[c3]@.len() ==> (
                            #[trigger] samples@[c3]@[w]).0 <= DENSITY_MAX,
                        forall|c3: int|
                            0 <= c3 < c2 ==> (#[trigger] samples@[c3])@ == self.samples_upto(
                                image@,
                                model,
                                s as int,
                                c3,
                                p + 1,
                            ),
                        forall|c3: int|
                            c2 <= c3 < ncol ==> (#[trigger] samples@[c3])@ == self.samples_upto(
                                image@,
                                model,
                                s as int,
                                c3,
                                p as int,
                            ),
                    decreases ncol - c2,
                {
                    let n_raw = self.pixels_by_sticker[s][p].stores[c2].len();
                    if n_raw > 0 {
                        let n_eff = if n_raw > 0xFFFF_FFFF {
                            0xFFFF_FFFF
                        } else {
                            n_raw
                        };
                        let k = neighbor_count(n_eff);
                        let kd = kth_nearest_dist(
                            &self.pixels_by_sticker[s][p].stores[c2],
                            q,
                            k,
                            &mut rng,
                        );
                        let d = density(k, n_eff, kd);
                        proof {
                            assert(d == self.sample_val(image@, model, s as int, p as int,
                                c2 as int));
                        }
                        let ghost pre = samples@;
                        let row = &mut samples[c2];
                        row.push((d, 0));
                        proof {
                            assert forall|c3: int, w: int|
                                0 <= c3 < samples@.len() && 0 <= w < samples@[c3]@.len() implies (
                            #[trigger] samples@[c3]@[w]).0 <= DENSITY_MAX by {
                                if c3 != c2 {
                                    assert(samples@[c3] == pre[c3]);
                                } else {
                                    if w < pre[c3]@.len() {
                                        assert(samples@[c3]@[w] == pre[c3]@[w]);
                                    }
                                }
                            }
                            assert forall|c3: int|
                                0 <= c3 < c2 + 1 implies (#[trigger] samples@[c3])@
                                == self.samples_upto(image@, model, s as int, c3, p + 1) by {
                                if c3 < c2 {
                                    assert(samples@[c3] == pre[c3]);
                                }
                            }
                            assert forall|c3: int|
                                c2 + 1 <= c3 < ncol implies (#[trigger] samples@[c3])@
                                == self.samples_upto(image@, model, s as int, c3, p as int) by {
                                assert(samples@[c3] == pre[c3]);
                            }
                        }
                    } else {
                        proof {
                            assert(samples@[c2 as int]@ == self.samples_upto(
                                image@,
                                model,
                                s as int,
                                c2 as int,
                                p + 1,
                            ));
                        }
                    }
                    c2 = c2 + 1;
                }
                p = p + 1;
            }

            // Reduce each color's samples to the representative confidence.
            let mut reps: Vec<Option<u64>> = Vec::new();
            let mut total: u128 = 0;
            let mut with_data: usize = 0;
            let mut c4: usize = 0;
            while c4 < ncol
                invariant
                    self.wf(),
                    s < n_slots,
                    n_slots == self.slot_count(),
                    ncol == self.colors(),
                    np == self.pixel_count(s as int),
                    c4 <= ncol,
                    ncol <= 0x10000,
                    samples@.len() == ncol,
                    forall|c3: int, w: int|
                        0 <= c3 < samples@.len() && 0 <= w < samples@[c3]@.len() ==> (
                        #[trigger] samples@[c3]@[w]).0 <= DENSITY_MAX,
                    forall|c3: int|
                        c4 <= c3 < ncol ==> (#[trigger] samples@[c3])@ == self.samples_of(
                            image@,
                            model,
                            s as int,
                            c3,
                        ),
                    reps@.len() == c4,
                    with_data <= c4,
                    total <= c4 * (DENSITY_MAX as int),
                    forall|c3: int| 0 <= c3 < c4 ==> match #[trigger] reps@[c3] {
                        Some(v) => v <= total && v <= DENSITY_MAX,
                        None => true,
                    },
                    with_data == 0 ==> total == 0,
                    total == self.total_upto(image@, model, s as int, c4 as int),
                    with_data == self.data_upto(image@, model, s as int, c4 as int),
                    forall|c3: int|
                        0 <= c3 < c4 ==> (#[trigger] reps@[c3]) == self.rep_of(
                            image@,
                            model,
                            s as int,
                            c3,
                        ),
                decreases ncol - c4,
            {
                let ln = samples[c4].len();
                if ln == 0 {
                    reps.push(None);
                } else {
                    let pos = ln / CONFIDENCE_PERCENTILE_DIV;
                    assert(pos < ln);
                    let ghost pre = samples@[c4 as int]@;
                    let ghost pre_all = samples@;
                    let row = &mut samples[c4];
                    quickselect(row, pos, &mut rng);
                    let v = samples[c4][pos].0;
                    proof {
                        crate::select::lemma_multiset_member(
                            pre,
                            samples@[c4 as int]@,
                            pos as int,
                        );
                        let u = choose|u: int|
                            0 <= u < pre.len() && pre[u] == samples@[c4 as int]@[pos as int];
                        assert(pre[u].0 <= DENSITY_MAX);
                        assert(Some(v) == self.rep_of(image@, model, s as int, c4 as int));
                    }
                    proof {
                        assert forall|c3: int, w: int|
                            0 <= c3 < samples@.len() && 0 <= w < samples@[c3]@.len() implies (
                        #[trigger] samples@[c3]@[w]).0 <= DENSITY_MAX by {
                            if c3 == c4 {
                                crate::select::lemma_multiset_member(
                                    pre,
                                    samples@[c4 as int]@,
                                    w,
                                );
                                let u2 = choose|u2: int|
                                    0 <= u2 < pre.len() && pre[u2] == samples@[c4 as int]@[w];
                                assert(pre[u2].0 <= DENSITY_MAX);
                            } else {
                                assert(samples@[c3] == pre_all[c3]);
                            }
                        }
                        assert forall|c3: int|
                            c4 + 1 <= c3 < ncol implies (#[trigger] samples@[c3])@
                            == self.samples_of(image@, model, s as int, c3) by {
                            assert(samples@[c3] == pre_all[c3]);
                        }
                    }
                    let ghost pre_reps = reps@;
                    let ghost pre_total = total;
                    reps.push(Some(v));
                    total = total + v as u128;
                    with_data = with_data + 1;
                    proof {
                        assert forall|c3: int| 0 <= c3 < c4 + 1 implies match #[trigger] reps@[c3] {
                            Some(v2) => v2 <= total && v2 <= DENSITY_MAX,
                            None => true,
                        } by {
                            if c3 < c4 {
                                assert(reps@[c3] == pre_reps[c3]);
                                assert(pre_total <= total);
                            }
                        }
                    }
                }
                c4 = c4 + 1;
            }

            // Normalize into [0, CONF_ONE].
            proof {
                assert(1 <= (ncol as int) * (n_slots as int) <= 0x1_0000_0000)
                    by (nonlinear_arith)
                    requires
                        1 <= ncol <= 0x10000,
                        1 <= n_slots <= 0x10000,
                ;
            }
            let no_data: u64 = CONF_ONE / ((ncol as u64) * (n_slots as u64));
            let mut row: Vec<u64> = Vec::new();
            let mut c5: usize = 0;
            while c5 < ncol
                invariant
                    self.wf(),
                    s < n_slots,
                    n_slots == self.slot_count(),
                    ncol == self.colors(),
                    c5 <= ncol,
                    1 <= ncol <= 0x10000,
                    n_slots <= 0x10000,
                    reps@.len() == ncol,
                    with_data <= ncol,
                    total <= ncol * (DENSITY_MAX as int),
                    forall|c3: int| 0 <= c3 < ncol ==> match #[trigger] reps@[c3] {
                        Some(v) => v <= total && v <= DENSITY_MAX,
                        None => true,
                    },
                    with_data == 0 ==> total == 0,
                    total == self.total_upto(image@, model, s as int, ncol as int),
                    with_data == self.data_upto(image@, model, s as int, ncol as int),
                    forall|c3: int|
                        0 <= c3 < ncol ==> (#[trigger] reps@[c3]) == self.rep_of(
                            image@,
                            model,
                            s as int,
                            c3,
                        ),
                    no_data == (CONF_ONE as int / ((ncol as int) * (n_slots as int))) as u64,
                    no_data <= CONF_ONE,
                    row@.len() == c5,
                    forall|c3: int| 0 <= c3 < c5 ==> (#[trigger] row@[c3]) <= CONF_ONE,
                    forall|c3: int|
                        0 <= c3 < c5 ==> (#[trigger] row@[c3]) == self.conf_of(
                            image@,
                            model,
                            s as int,
                            c3,
                        ),
                decreases ncol - c5,
            {
                let conf: u64;
                if with_data == 0 || total == 0 {
                    conf = no_data;
                } else {
                    match reps[c5] {
                        None => {
                            conf = no_data;
                        },
                        Some(v) => {
                            proof {
                                lemma_norm_le(
                                    v as int,
                                    with_data as int,
                                    total as int,
                                    ncol as int,
                                    n_slots as int,
                                );
                                assert((v as int) * (with_data as int) <= 1_000_000_000_000_000_000
                                    * 0x10000) by (nonlinear_arith)
                                    requires
                                        v <= 1_000_000_000_000_000_000,
                                        with_data <= 0x10000,
                                ;
                                assert((total as int) * (ncol as int) <= (0x10000
                                    * 1_000_000_000_000_000_000) * 0x10000) by (nonlinear_arith)
                                    requires
                                        total <= 0x10000 * 1_000_000_000_000_000_000,
                                        ncol <= 0x10000,
                                ;
                                assert(((total as int) * (ncol as int)) * (n_slots as int)
                                    <= ((0x10000 * 1_000_000_000_000_000_000) * 0x10000)
                                    * 0x10000) by (nonlinear_arith)
                                    requires
                                        (total as int) * (ncol as int) <= (0x10000
                                            * 1_000_000_000_000_000_000) * 0x10000,
                                        (total as int) * (ncol as int) >= 0,
                                        n_slots <= 0x10000,
                                ;
                            }
                            let numer: u128 = ((v as u128) * (with_data as u128)) * (
                            CONF_ONE as u128);
                            let denom: u128 = ((total) * (ncol as u128)) * (n_slots as u128);
                            let qv = numer / denom;
                            conf = qv as u64;
                        },
                    }
                }
                row.push(conf);
                proof {
                    assert(conf == self.conf_of(image@, model, s as int, c5 as int));
                }
                c5 = c5 + 1;
            }
            out.push(row);
            s = s + 1;
        }
        out
    }
}

/// The persisted form of a point list: three words per point.
pub open spec fn enc_points(ps: Seq<Point>) -> Seq<u64>
    decreases ps.len(),
{
    if ps.len() == 0 {
        Seq::empty()
    } else {
        seq![ps[0].0, ps[0].1, ps[0].2] + enc_points(ps.drop_first())
    }
}

/// The persisted form of one store: its length, then its points.
pub open spec fn enc_store(st: ColorStore) -> Seq<u64> {
    seq![st@.len() as u64] + enc_points(st@)
}

pub open spec fn enc_stores(ss: Seq<ColorStore>) -> Seq<u64>
    decreases ss.len(),
{
    if ss.len() == 0 {
        Seq::empty()
    } else {
        enc_store(ss[0]) + enc_stores(ss.drop_first())
    }
}

/// The persisted form of one slot pixel: its image index, then its stores.
pub open spec fn enc_pixel(sp: SlotPixel) -> Seq<u64> {
    seq![sp.idx as u64] + enc_stores(sp.stores@)
}

pub open spec fn enc_pixels(ps: Seq<SlotPixel>) -> Seq<u64>
    decreases ps.len(),
{
    if ps.len() == 0 {
        Seq::empty()
    } else {
        enc_pixel(ps[0]) + enc_pixels(ps.drop_first())
    }
}

/// The persisted form of one slot: its pixel count, then its pixels.
pub open spec fn enc_slot(ps: Seq<SlotPixel>) -> Seq<u64> {
    seq![ps.len() as u64] + enc_pixels(ps)
}

pub open spec fn enc_slots(sl: Seq<Vec<SlotPixel>>) -> Seq<u64>
    decreases sl.len(),
{
    if sl.len() == 0 {
        Seq::empty()
    } else {
        enc_slot(sl[0]@) + enc_slots(sl.drop_first())
    }
}

pub open spec fn enc_refs(rs: Seq<usize>) -> Seq<u64>
    decreases rs.len(),
{
    if rs.len() == 0 {
        Seq::empty()
    } else {
        seq![rs[0] as u64] + enc_refs(rs.drop_first())
    }
}

/// The persisted form of one face: its reference count, then the indices.
pub open spec fn enc_face(rs: Seq<usize>) -> Seq<u64> {
    seq![rs.len() as u64] + enc_refs(rs)
}

pub open spec fn enc_faces(fs: Seq<Vec<usize>>) -> Seq<u64>
    decreases fs.len(),
{
    if fs.len() == 0 {
        Seq::empty()
    } else {
        enc_face(fs[0]@) + enc_faces(fs.drop_first())
    }
}

/// The persisted form of the whole engine.
pub open spec fn enc_inf(inf: Inference) -> Seq<u64> {
    seq![
        inf.num_colors as u64,
        inf.image_size as u64,
        inf.pixels_by_sticker@.len() as u64,
    ] + enc_faces(inf.white_balance_by_face@) + enc_slots(inf.pixels_by_sticker@)
}

proof fn lemma_enc_points_push(ps: Seq<Point>, p: Point)
    ensures
        enc_points(ps.push(p)) == enc_points(ps) + seq![p.0, p.1, p.2],
    decreases ps.len(),
{
    if ps.len() == 0 {
        assert(ps.push(p).drop_first() =~= Seq::<Point>::empty());
        assert(ps.push(p)[0] == p);
        assert(ps.push(p).len() == 1);
        assert(enc_points(ps.push(p)) == seq![p.0, p.1, p.2] + enc_points(
            ps.push(p).drop_first(),
        ));
        assert(enc_points(Seq::<Point>::empty()) == Seq::<u64>::empty());
        assert(enc_points(ps) == Seq::<u64>::empty());
        assert(enc_points(ps.push(p)) =~= enc_points(ps) + seq![p.0, p.1, p.2]);
    } else {
        assert(ps.push(p).drop_first() =~= ps.drop_first().push(p));
        lemma_enc_points_push(ps.drop_first(), p);
        assert(ps.push(p)[0] == ps[0]);
        assert(enc_points(ps.push(p)) == seq![ps[0].0, ps[0].1, ps[0].2] + enc_points(
            ps.drop_first().push(p),
        ));
        assert(enc_points(ps) == seq![ps[0].0, ps[0].1, ps[0].2] + enc_points(ps.drop_first()));
        assert(enc_points(ps.push(p)) =~= enc_points(ps) + seq![p.0, p.1, p.2]);
    }
}

proof fn lemma_enc_refs_push(rs: Seq<usize>, x: usize)
    ensures
        enc_refs(rs.push(x)) == enc_refs(rs) + seq![x as u64],
    decreases rs.len(),
{
    if rs.len() == 0 {
        assert(rs.push(x).drop_first() =~= Seq::<usize>::empty());
        assert(rs.push(x)[0] == x);
        assert(enc_refs(rs.push(x)) == seq![x as u64] + enc_refs(
            rs.push(x).drop_first(),
        ));
        assert(enc_refs(Seq::<usize>::empty()) == Seq::<u64>::empty());
        assert(enc_refs(rs) == Seq::<u64>::empty());
        assert(enc_refs(rs.push(x)) =~= enc_refs(rs) + seq![x as u64]);
    } else {
        assert(rs.push(x).drop_first() =~= rs.drop_first().push(x));
        lemma_enc_refs_push(rs.drop_first(), x);
        assert(rs.push(x)[0] == rs[0]);
        assert(enc_refs(rs.push(x)) == seq![rs[0] as u64] + enc_refs(
            rs.drop_first().push(x),
        ));
        assert(enc_refs(rs) == seq![rs[0] as u64] + enc_refs(rs.drop_first()));
        assert(enc_refs(rs.push(x)) =~= enc_refs(rs) + seq![x as u64]);
    }
}

proof fn lemma_enc_faces_push(fs: Seq<Vec<usize>>, v: Vec<usize>)
    ensures
        enc_faces(fs.push(v)) == enc_faces(fs) + enc_face(v@),
    decreases fs.len(),
{
    if fs.len() == 0 {
        assert(fs.push(v).drop_first() =~= Seq::<Vec<usize>>::empty());
        assert(fs.push(v)[0] == v);
        assert(enc_faces(fs.push(v)) == enc_face(v@) + enc_faces(
            fs.push(v).drop_first(),
        ));
        assert(enc_faces(Seq::<Vec<usize>>::empty()) == Seq::<u64>::empty());
        assert(enc_faces(fs) == Seq::<u64>::empty());
        assert(enc_faces(fs.push(v)) =~= enc_faces(fs) + enc_face(v@));
    } else {
        assert(fs.push(v).drop_first() =~= fs.drop_first().push(v));
        lemma_enc_faces_push(fs.drop_first(), v);
        assert(fs.push(v)[0] == fs[0]);
        assert(enc_faces(fs.push(v)) == enc_face(fs[0]@) + enc_faces(
            fs.drop_first().push(v),
        ));
        assert(enc_faces(fs) == enc_face(fs[0]@) + enc_faces(fs.drop_first()));
        assert(enc_faces(fs.push(v)) =~= enc_faces(fs) + enc_face(v@));
    }
}

proof fn lemma_enc_stores_push(ss: Seq<ColorStore>, st: ColorStore)
    ensures
        enc_stores(ss.push(st)) == enc_stores(ss) + enc_store(st),
    decreases ss.len(),
{
    if ss.len() == 0 {
        assert(ss.push(st).drop_first() =~= Seq::<ColorStore>::empty());
        assert(ss.push(st)[0] == st);
        assert(enc_stores(ss.push(st)) == enc_store(st) + enc_stores(
            ss.push(st).drop_first(),
        ));
        assert(enc_stores(Seq::<ColorStore>::empty()) == Seq::<u64>::empty());
        assert(enc_stores(ss) == Seq::<u64>::empty());
        assert(enc_stores(ss.push(st)) =~= enc_stores(ss) + enc_store(st));
    } else {
        assert(ss.push(st).drop_first() =~= ss.drop_first().push(st));
        lemma_enc_stores_push(ss.drop_first(), st);
        assert(ss.push(st)[0] == ss[0]);
        assert(enc_stores(ss.push(st)) == enc_store(ss[0]) + enc_stores(
            ss.drop_first().push(st),
        ));
        assert(enc_stores(ss) == enc_store(ss[0]) + enc_stores(ss.drop_first()));
        assert(enc_stores(ss.push(st)) =~= enc_stores(ss) + enc_store(st));
    }
}

proof fn lemma_enc_pixels_push(ps: Seq<SlotPixel>, sp: SlotPixel)
    ensures
        enc_pixels(ps.push(sp)) == enc_pixels(ps) + enc_pixel(sp),
    decreases ps.len(),
{
    if ps.len() == 0 {
        assert(ps.push(sp).drop_first() =~= Seq::<SlotPixel>::empty());
        assert(ps.push(sp)[0] == sp);
        assert(enc_pixels(ps.push(sp)) == enc_pixel(sp) + enc_pixels(
            ps.push(sp).drop_first(),
        ));
        assert(enc_pixels(Seq::<SlotPixel>::empty()) == Seq::<u64>::empty());
        assert(enc_pixels(ps) == Seq::<u64>::empty());
        assert(enc_pixels(ps.push(sp)) =~= enc_pixels(ps) + enc_pixel(sp));
    } else {
        assert(ps.push(sp).drop_first() =~= ps.drop_first().push(sp));
        lemma_enc_pixels_push(ps.drop_first(), sp);
        assert(ps.push(sp)[0] == ps[0]);
        assert(enc_pixels(ps.push(sp)) == enc_pixel(ps[0]) + enc_pixels(
            ps.drop_first().push(sp),
        ));
        assert(enc_pixels(ps) == enc_pixel(ps[0]) + enc_pixels(ps.drop_first()));
        assert(enc_pixels(ps.push(sp)) =~= enc_pixels(ps) + enc_pixel(sp));
    }
}

proof fn lemma_enc_slots_push(sl: Seq<Vec<SlotPixel>>, v: Vec<SlotPixel>)
    ensures
        enc_slots(sl.push(v)) == enc_slots(sl) + enc_slot(v@),
    decreases sl.len(),
{
    if sl.len() == 0 {
        assert(sl.push(v).drop_first() =~= Seq::<Vec<SlotPixel>>::empty());
        assert(sl.push(v)[0] == v);
        assert(enc_slots(sl.push(v)) == enc_slot(v@) + enc_slots(
            sl.push(v).drop_first(),
        ));
        assert(enc_slots(Seq::<Vec<SlotPixel>>::empty()) == Seq::<u64>::empty());
        assert(enc_slots(sl) == Seq::<u64>::empty());
        assert(enc_slots(sl.push(v)) =~= enc_slots(sl) + enc_slot(v@));
    } else {
        assert(sl.push(v).drop_first() =~= sl.drop_first().push(v));
        lemma_enc_slots_push(sl.drop_first(), v);
        assert(sl.push(v)[0] == sl[0]);
        assert(enc_slots(sl.push(v)) == enc_slot(sl[0]@) + enc_slots(
            sl.drop_first().push(v),
        ));
        assert(enc_slots(sl) == enc_slot(sl[0]@) + enc_slots(sl.drop_first()));
        assert(enc_slots(sl.push(v)) =~= enc_slots(sl) + enc_slot(v@));
    }
}

proof fn lemma_concat_split(a1: Seq<u64>, b1: Seq<u64>, a2: Seq<u64>, b2: Seq<u64>)
    requires
        a1 + b1 == a2 + b2,
        a1.len() == a2.len(),
    ensures
        a1 == a2,
        b1 == b2,
{
    assert forall|i: int| 0 <= i < a1.len() implies a1[i] == a2[i] by {
        assert((a1 + b1)[i] == a1[i]);
        assert((a2 + b2)[i] == a2[i]);
    }
    assert(a1 =~= a2);
    assert((a1 + b1).len() == a1.len() + b1.len());
    assert((a2 + b2).len() == a2.len() + b2.len());
    assert(b1.len() == b2.len());
    assert forall|i: int| 0 <= i < b1.len() implies b1[i] == b2[i] by {
        assert((a1 + b1)[a1.len() + i] == b1[i]);
        assert((a2 + b2)[a2.len() + i] == b2[i]);
    }
    assert(b1 =~= b2);
}

proof fn lemma_enc_refs_shape(rs: Seq<usize>)
    ensures
        enc_refs(rs).len() == rs.len(),
        forall|i: int| 0 <= i < rs.len() ==> enc_refs(rs)[i] == (#[trigger] rs[i]) as u64,
    decreases rs.len(),
{
    if rs.len() > 0 {
        lemma_enc_refs_shape(rs.drop_first());
        assert forall|i: int| 0 <= i < rs.len() implies enc_refs(rs)[i] == (
        #[trigger] rs[i]) as u64 by {
            if i > 0 {
                assert(enc_refs(rs)[i] == enc_refs(rs.drop_first())[i - 1]);
                assert(rs.drop_first()[i - 1] == rs[i]);
            }
        }
    }
}

proof fn lemma_enc_points_shape(ps: Seq<Point>)
    ensures
        enc_points(ps).len() == 3 * ps.len(),
        forall|i: int|
            0 <= i < ps.len() ==> enc_points(ps)[3 * i] == (#[trigger] ps[i]).0 && enc_points(
                ps,
            )[3 * i + 1] == ps[i].1 && enc_points(ps)[3 * i + 2] == ps[i].2,
    decreases ps.len(),
{
    if ps.len() > 0 {
        lemma_enc_points_shape(ps.drop_first());
        assert forall|i: int|
            0 <= i < ps.len() implies enc_points(ps)[3 * i] == (#[trigger] ps[i]).0 && enc_points(
            ps,
        )[3 * i + 1] == ps[i].1 && enc_points(ps)[3 * i + 2] == ps[i].2 by {
            if i > 0 {
                assert(enc_points(ps)[3 * i] == enc_points(ps.drop_first())[3 * (i - 1)]);
                assert(enc_points(ps)[3 * i + 1] == enc_points(ps.drop_first())[3 * (i - 1) + 1]);
                assert(enc_points(ps)[3 * i + 2] == enc_points(ps.drop_first())[3 * (i - 1) + 2]);
                assert(ps.drop_first()[i - 1] == ps[i]);
            }
        }
    }
}

proof fn lemma_peel_store(s1: ColorStore, s2: ColorStore, r1: Seq<u64>, r2: Seq<u64>)
    requires
        enc_store(s1) + r1 == enc_store(s2) + r2,
        s1@.len() <= 0xFFFF_FFFF_FFFF_FFFF,
        s2@.len() <= 0xFFFF_FFFF_FFFF_FFFF,
    ensures
        s1@ == s2@,
        r1 == r2,
{
    lemma_enc_points_shape(s1@);
    lemma_enc_points_shape(s2@);
    assert((enc_store(s1) + r1)[0] == s1@.len() as u64);
    assert((enc_store(s2) + r2)[0] == s2@.len() as u64);
    assert(s1@.len() == s2@.len());
    lemma_concat_split(enc_store(s1), r1, enc_store(s2), r2);
    assert forall|i: int| 0 <= i < s1@.len() implies s1@[i] == s2@[i] by {
        assert(enc_store(s1)[1 + 3 * i] == enc_points(s1@)[3 * i]);
        assert(enc_store(s1)[1 + 3 * i + 1] == enc_points(s1@)[3 * i + 1]);
        assert(enc_store(s1)[1 + 3 * i + 2] == enc_points(s1@)[3 * i + 2]);
        assert(enc_store(s2)[1 + 3 * i] == enc_points(s2@)[3 * i]);
        assert(enc_store(s2)[1 + 3 * i + 1] == enc_points(s2@)[3 * i + 1]);
        assert(enc_store(s2)[1 + 3 * i + 2] == enc_points(s2@)[3 * i + 2]);
    }
    assert(s1@ =~= s2@);
}

proof fn lemma_peel_stores(ss1: Seq<ColorStore>, ss2: Seq<ColorStore>, r1: Seq<u64>, r2: Seq<u64>)
    requires
        ss1.len() == ss2.len(),
        enc_stores(ss1) + r1 == enc_stores(ss2) + r2,
        forall|c: int| 0 <= c < ss1.len() ==> (#[trigger] ss1[c])@.len() <= 0xFFFF_FFFF_FFFF_FFFF,
        forall|c: int| 0 <= c < ss2.len() ==> (#[trigger] ss2[c])@.len() <= 0xFFFF_FFFF_FFFF_FFFF,
    ensures
        forall|c: int| 0 <= c < ss1.len() ==> (#[trigger] ss1[c])@ == ss2[c]@,
        r1 == r2,
    decreases ss1.len(),
{
    if ss1.len() == 0 {
        assert(enc_stores(ss1) + r1 =~= r1);
        assert(enc_stores(ss2) + r2 =~= r2);
    } else {
        assert(enc_stores(ss1) + r1 =~= enc_store(ss1[0]) + (enc_stores(ss1.drop_first()) + r1));
        assert(enc_stores(ss2) + r2 =~= enc_store(ss2[0]) + (enc_stores(ss2.drop_first()) + r2));
        lemma_peel_store(
            ss1[0],
            ss2[0],
            enc_stores(ss1.drop_first()) + r1,
            enc_stores(ss2.drop_first()) + r2,
        );
        lemma_peel_stores(ss1.drop_first(), ss2.drop_first(), r1, r2);
        assert forall|c: int| 0 <= c < ss1.len() implies (#[trigger] ss1[c])@ == ss2[c]@ by {
            if c > 0 {
                assert(ss1.drop_first()[c - 1]@ == ss2.drop_first()[c - 1]@);
                assert(ss1.drop_first()[c - 1] == ss1[c]);
                assert(ss2.drop_first()[c - 1] == ss2[c]);
            }
        }
    }
}

proof fn lemma_peel_pixel(sp1: SlotPixel, sp2: SlotPixel, r1: Seq<u64>, r2: Seq<u64>, ncol: int)
    requires
        enc_pixel(sp1) + r1 == enc_pixel(sp2) + r2,
        sp1.stores@.len() == ncol,
        sp2.stores@.len() == ncol,
        forall|c: int|
            0 <= c < sp1.stores@.len() ==> (#[trigger] sp1.stores@[c])@.len()
                <= 0xFFFF_FFFF_FFFF_FFFF,
        forall|c: int|
            0 <= c < sp2.stores@.len() ==> (#[trigger] sp2.stores@[c])@.len()
                <= 0xFFFF_FFFF_FFFF_FFFF,
    ensures
        sp1.idx == sp2.idx,
        forall|c: int| 0 <= c < sp1.stores@.len() ==> (#[trigger] sp1.stores@[c])@
            == sp2.stores@[c]@,
        r1 == r2,
{
    assert((enc_pixel(sp1) + r1)[0] == sp1.idx as u64);
    assert((enc_pixel(sp2) + r2)[0] == sp2.idx as u64);
    assert(sp1.idx == sp2.idx);
    assert(enc_pixel(sp1) + r1 =~= seq![sp1.idx as u64] + (enc_stores(sp1.stores@) + r1));
    assert(enc_pixel(sp2) + r2 =~= seq![sp2.idx as u64] + (enc_stores(sp2.stores@) + r2));
    lemma_concat_split(
        seq![sp1.idx as u64],
        enc_stores(sp1.stores@) + r1,
        seq![sp2.idx as u64],
        enc_stores(sp2.stores@) + r2,
    );
    lemma_peel_stores(sp1.stores@, sp2.stores@, r1, r2);
}

proof fn lemma_peel_pixels(
    ps1: Seq<SlotPixel>,
    ps2: Seq<SlotPixel>,
    r1: Seq<u64>,
    r2: Seq<u64>,
    ncol: int,
)
    requires
        ps1.len() == ps2.len(),
        enc_pixels(ps1) + r1 == enc_pixels(ps2) + r2,
        forall|p: int, c: int|
            0 <= p < ps1.len() && 0 <= c < ps1[p].stores@.len() ==> (
            #[trigger] ps1[p].stores@[c])@.len() <= 0xFFFF_FFFF_FFFF_FFFF,
        forall|p: int, c: int|
            0 <= p < ps2.len() && 0 <= c < ps2[p].stores@.len() ==> (
            #[trigger] ps2[p].stores@[c])@.len() <= 0xFFFF_FFFF_FFFF_FFFF,
        forall|p: int| 0 <= p < ps1.len() ==> (#[trigger] ps1[p].stores@.len()) == ncol,
        forall|p: int| 0 <= p < ps2.len() ==> (#[trigger] ps2[p].stores@.len()) == ncol,
    ensures
        forall|p: int| 0 <= p < ps1.len() ==> (#[trigger] ps1[p].idx) == ps2[p].idx,
        forall|p: int, c: int|
            0 <= p < ps1.len() && 0 <= c < ps1[p].stores@.len() ==> (
            #[trigger] ps1[p].stores@[c])@ == ps2[p].stores@[c]@,
        r1 == r2,
    decreases ps1.len(),
{
    if ps1.len() == 0 {
        assert(enc_pixels(ps1) + r1 =~= r1);
        assert(enc_pixels(ps2) + r2 =~= r2);
    } else {
        assert(enc_pixels(ps1) + r1 =~= enc_pixel(ps1[0]) + (enc_pixels(ps1.drop_first()) + r1));
        assert(enc_pixels(ps2) + r2 =~= enc_pixel(ps2[0]) + (enc_pixels(ps2.drop_first()) + r2));
        lemma_peel_pixel(
            ps1[0],
            ps2[0],
            enc_pixels(ps1.drop_first()) + r1,
            enc_pixels(ps2.drop_first()) + r2,
            ncol,
        );
        lemma_peel_pixels(ps1.drop_first(), ps2.drop_first(), r1, r2, ncol);
        assert forall|p: int| 0 <= p < ps1.len() implies (#[trigger] ps1[p].idx) == ps2[p].idx by {
            if p > 0 {
                assert(ps1.drop_first()[p - 1] == ps1[p]);
                assert(ps2.drop_first()[p - 1] == ps2[p]);
            }
        }
        assert forall|p: int, c: int|
            0 <= p < ps1.len() && 0 <= c < ps1[p].stores@.len() implies (
        #[trigger] ps1[p].stores@[c])@ == ps2[p].stores@[c]@ by {
            if p > 0 {
                assert(ps1.drop_first()[p - 1] == ps1[p]);
                assert(ps2.drop_first()[p - 1] == ps2[p]);
                assert(ps1.drop_first()[p - 1].stores@[c]@ == ps2.drop_first()[p - 1].stores@[c]@);
            }
        }
    }
}

proof fn lemma_peel_slots(
    sl1: Seq<Vec<SlotPixel>>,
    sl2: Seq<Vec<SlotPixel>>,
    r1: Seq<u64>,
    r2: Seq<u64>,
    ncol: int,
)
    requires
        sl1.len() == sl2.len(),
        enc_slots(sl1) + r1 == enc_slots(sl2) + r2,
        forall|s: int| 0 <= s < sl1.len() ==> (#[trigger] sl1[s])@.len() <= 0xFFFF_FFFF_FFFF_FFFF,
        forall|s: int| 0 <= s < sl2.len() ==> (#[trigger] sl2[s])@.len() <= 0xFFFF_FFFF_FFFF_FFFF,
        forall|s: int, p: int, c: int|
            0 <= s < sl1.len() && 0 <= p < sl1[s]@.len() && 0 <= c < sl1[s]@[p].stores@.len()
                ==> (#[trigger] sl1[s]@[p].stores@[c])@.len() <= 0xFFFF_FFFF_FFFF_FFFF,
        forall|s: int, p: int, c: int|
            0 <= s < sl2.len() && 0 <= p < sl2[s]@.len() && 0 <= c < sl2[s]@[p].stores@.len()
                ==> (#[trigger] sl2[s]@[p].stores@[c])@.len() <= 0xFFFF_FFFF_FFFF_FFFF,
        forall|s: int, p: int|
            0 <= s < sl1.len() && 0 <= p < sl1[s]@.len() ==> (
            #[trigger] sl1[s]@[p].stores@.len()) == ncol,
        forall|s: int, p: int|
            0 <= s < sl2.len() && 0 <= p < sl2[s]@.len() ==> (
            #[trigger] sl2[s]@[p].stores@.len()) == ncol,
    ensures
        forall|s: int| 0 <= s < sl1.len() ==> (#[trigger] sl1[s])@.len() == sl2[s]@.len(),
        forall|s: int, p: int|
            0 <= s < sl1.len() && 0 <= p < sl1[s]@.len() ==> (#[trigger] sl1[s]@[p].idx)
                == sl2[s]@[p].idx,
        forall|s: int, p: int, c: int|
            0 <= s < sl1.len() && 0 <= p < sl1[s]@.len() && 0 <= c < sl1[s]@[p].stores@.len()
                ==> (#[trigger] sl1[s]@[p].stores@[c])@ == sl2[s]@[p].stores@[c]@,
        r1 == r2,
    decreases sl1.len(),
{
    if sl1.len() == 0 {
        assert(enc_slots(sl1) + r1 =~= r1);
        assert(enc_slots(sl2) + r2 =~= r2);
    } else {
        assert(enc_slots(sl1) + r1 =~= seq![sl1[0]@.len() as u64] + (enc_pixels(sl1[0]@) + (
        enc_slots(sl1.drop_first()) + r1)));
        assert(enc_slots(sl2) + r2 =~= seq![sl2[0]@.len() as u64] + (enc_pixels(sl2[0]@) + (
        enc_slots(sl2.drop_first()) + r2)));
        assert((enc_slots(sl1) + r1)[0] == sl1[0]@.len() as u64);
        assert((enc_slots(sl2) + r2)[0] == sl2[0]@.len() as u64);
        assert(sl1[0]@.len() == sl2[0]@.len());
        lemma_concat_split(
            seq![sl1[0]@.len() as u64],
            enc_pixels(sl1[0]@) + (enc_slots(sl1.drop_first()) + r1),
            seq![sl2[0]@.len() as u64],
            enc_pixels(sl2[0]@) + (enc_slots(sl2.drop_first()) + r2),
        );
        lemma_peel_pixels(
            sl1[0]@,
            sl2[0]@,
            enc_slots(sl1.drop_first()) + r1,
            enc_slots(sl2.drop_first()) + r2,
            ncol,
        );
        lemma_peel_slots(sl1.drop_first(), sl2.drop_first(), r1, r2, ncol);
        assert forall|s: int|
            0 <= s < sl1.len() implies (#[trigger] sl1[s])@.len() == sl2[s]@.len() by {
            if s > 0 {
                assert(sl1.drop_first()[s - 1] == sl1[s]);
                assert(sl2.drop_first()[s - 1] == sl2[s]);
            }
        }
        assert forall|s: int, p: int|
            0 <= s < sl1.len() && 0 <= p < sl1[s]@.len() implies (#[trigger] sl1[s]@[p].idx)
            == sl2[s]@[p].idx by {
            if s > 0 {
                assert(sl1.drop_first()[s - 1] == sl1[s]);
                assert(sl2.drop_first()[s - 1] == sl2[s]);
                assert(sl1.drop_first()[s - 1]@[p].idx == sl2.drop_first()[s - 1]@[p].idx);
            }
        }
        assert forall|s: int, p: int, c: int|
            0 <= s < sl1.len() && 0 <= p < sl1[s]@.len() && 0 <= c
                < sl1[s]@[p].stores@.len() implies (#[trigger] sl1[s]@[p].stores@[c])@
            == sl2[s]@[p].stores@[c]@ by {
            if s > 0 {
                assert(sl1.drop_first()[s - 1] == sl1[s]);
                assert(sl2.drop_first()[s - 1] == sl2[s]);
                assert(sl1.drop_first()[s - 1]@[p].stores@[c]@ == sl2.drop_first()[s
                    - 1]@[p].stores@[c]@);
            }
        }
    }
}

proof fn lemma_peel_faces(fs1: Seq<Vec<usize>>, fs2: Seq<Vec<usize>>, r1: Seq<u64>, r2: Seq<u64>)
    requires
        fs1.len() == fs2.len(),
        enc_faces(fs1) + r1 == enc_faces(fs2) + r2,
        forall|f: int| 0 <= f < fs1.len() ==> (#[trigger] fs1[f])@.len() <= 0xFFFF_FFFF_FFFF_FFFF,
        forall|f: int| 0 <= f < fs2.len() ==> (#[trigger] fs2[f])@.len() <= 0xFFFF_FFFF_FFFF_FFFF,
    ensures
        forall|f: int| 0 <= f < fs1.len() ==> (#[trigger] fs1[f])@ == fs2[f]@,
        r1 == r2,
    decreases fs1.len(),
{
    if fs1.len() == 0 {
        assert(enc_faces(fs1) + r1 =~= r1);
        assert(enc_faces(fs2) + r2 =~= r2);
    } else {
        lemma_enc_refs_shape(fs1[0]@);
        lemma_enc_refs_shape(fs2[0]@);
        assert(enc_faces(fs1) + r1 =~= seq![fs1[0]@.len() as u64] + (enc_refs(fs1[0]@) + (
        enc_faces(fs1.drop_first()) + r1)));
        assert(enc_faces(fs2) + r2 =~= seq![fs2[0]@.len() as u64] + (enc_refs(fs2[0]@) + (
        enc_faces(fs2.drop_first()) + r2)));
        assert((enc_faces(fs1) + r1)[0] == fs1[0]@.len() as u64);
        assert((enc_faces(fs2) + r2)[0] == fs2[0]@.len() as u64);
        assert(fs1[0]@.len() == fs2[0]@.len());
        lemma_concat_split(
            seq![fs1[0]@.len() as u64],
            enc_refs(fs1[0]@) + (enc_faces(fs1.drop_first()) + r1),
            seq![fs2[0]@.len() as u64],
            enc_refs(fs2[0]@) + (enc_faces(fs2.drop_first()) + r2),
        );
        lemma_concat_split(
            enc_refs(fs1[0]@),
            enc_faces(fs1.drop_first()) + r1,
            enc_refs(fs2[0]@),
            enc_faces(fs2.drop_first()) + r2,
        );
        assert forall|i: int| 0 <= i < fs1[0]@.len() implies fs1[0]@[i] == fs2[0]@[i] by {
            assert(enc_refs(fs1[0]@)[i] == fs1[0]@[i] as u64);
            assert(enc_refs(fs2[0]@)[i] == fs2[0]@[i] as u64);
        }
        assert(fs1[0]@ =~= fs2[0]@);
        lemma_peel_faces(fs1.drop_first(), fs2.drop_first(), r1, r2);
        assert forall|f: int| 0 <= f < fs1.len() implies (#[trigger] fs1[f])@ == fs2[f]@ by {
            if f > 0 {
                assert(fs1.drop_first()[f - 1] == fs1[f]);
                assert(fs2.drop_first()[f - 1] == fs2[f]);
            }
        }
    }
}

/// The observable state of two engines is the same: same sizes, same
/// reference pixels per face, same pixel indices and same store contents
/// everywhere. Engines in this relation behave identically.
pub open spec fn eq_state(x: Inference, y: Inference) -> bool {
    &&& x.num_colors == y.num_colors
    &&& x.image_size == y.image_size
    &&& x.white_balance_by_face@.len() == y.white_balance_by_face@.len()
    &&& forall|f: int|
        0 <= f < x.white_balance_by_face@.len() ==> (#[trigger] x.white_balance_by_face@[f])@
            == y.white_balance_by_face@[f]@
    &&& x.pixels_by_sticker@.len() == y.pixels_by_sticker@.len()
    &&& forall|s: int|
        0 <= s < x.pixels_by_sticker@.len() ==> (#[trigger] x.pixels_by_sticker@[s])@.len()
            == y.pixels_by_sticker@[s]@.len()
    &&& forall|s: int, p: int|
        0 <= s < x.pixels_by_sticker@.len() && 0 <= p < x.pixels_by_sticker@[s]@.len() ==> (
        #[trigger] x.pixels_by_sticker@[s]@[p].idx) == y.pixels_by_sticker@[s]@[p].idx
    &&& forall|s: int, p: int, c: int|
        0 <= s < x.pixels_by_sticker@.len() && 0 <= p < x.pixels_by_sticker@[s]@.len() && 0 <= c
            < x.pixels_by_sticker@[s]@[p].stores@.len() ==> (
        #[trigger] x.pixels_by_sticker@[s]@[p].stores@[c])@
            == y.pixels_by_sticker@[s]@[p].stores@[c]@
}

/// Law: the persisted form determines the engine. Two well-formed engines
/// with the same word blob have the same observable state, so by the
/// contracts of `to_words` and `from_words`, deserializing a serialized
/// engine reconstructs exactly the state that was serialized, and later
/// inference on it behaves identically.
pub proof fn lemma_persisted_form_determines_state(x: Inference, y: Inference)
    requires
        x.wf(),
        y.wf(),
        enc_inf(x) == enc_inf(y),
    ensures
        eq_state(x, y),
{
    assert(enc_inf(x)[0] == x.num_colors as u64 && enc_inf(x)[1] == x.image_size as u64
        && enc_inf(x)[2] == x.pixels_by_sticker@.len() as u64);
    assert(enc_inf(y)[0] == y.num_colors as u64 && enc_inf(y)[1] == y.image_size as u64
        && enc_inf(y)[2] == y.pixels_by_sticker@.len() as u64);
    assert(x.num_colors == y.num_colors);
    assert(x.image_size == y.image_size);
    assert(x.pixels_by_sticker@.len() == y.pixels_by_sticker@.len());

    assert forall|f: int|
        0 <= f < x.white_balance_by_face@.len() implies (
    #[trigger] x.white_balance_by_face@[f])@.len() <= 0xFFFF_FFFF_FFFF_FFFF by {
        vstd::std_specs::vec::axiom_spec_len(&x.white_balance_by_face@[f]);
    }
    assert forall|f: int|
        0 <= f < y.white_balance_by_face@.len() implies (
    #[trigger] y.white_balance_by_face@[f])@.len() <= 0xFFFF_FFFF_FFFF_FFFF by {
        vstd::std_specs::vec::axiom_spec_len(&y.white_balance_by_face@[f]);
    }
    assert forall|s: int|
        0 <= s < x.pixels_by_sticker@.len() implies (#[trigger] x.pixels_by_sticker@[s])@.len()
        <= 0xFFFF_FFFF_FFFF_FFFF by {
        vstd::std_specs::vec::axiom_spec_len(&x.pixels_by_sticker@[s]);
    }
    assert forall|s: int|
        0 <= s < y.pixels_by_sticker@.len() implies (#[trigger] y.pixels_by_sticker@[s])@.len()
        <= 0xFFFF_FFFF_FFFF_FFFF by {
        vstd::std_specs::vec::axiom_spec_len(&y.pixels_by_sticker@[s]);
    }
    assert forall|s: int, p: int, c: int|
        0 <= s < x.pixels_by_sticker@.len() && 0 <= p < x.pixels_by_sticker@[s]@.len() && 0 <= c
            < x.pixels_by_sticker@[s]@[p].stores@.len() implies (
    #[trigger] x.pixels_by_sticker@[s]@[p].stores@[c])@.len() <= 0xFFFF_FFFF_FFFF_FFFF by {
        x.pixels_by_sticker@[s]@[p].stores@[c].lemma_view_len();
    }
    assert forall|s: int, p: int, c: int|
        0 <= s < y.pixels_by_sticker@.len() && 0 <= p < y.pixels_by_sticker@[s]@.len() && 0 <= c
            < y.pixels_by_sticker@[s]@[p].stores@.len() implies (
    #[trigger] y.pixels_by_sticker@[s]@[p].stores@[c])@.len() <= 0xFFFF_FFFF_FFFF_FFFF by {
        y.pixels_by_sticker@[s]@[p].stores@[c].lemma_view_len();
    }
    assert forall|s: int, p: int|
        0 <= s < x.pixels_by_sticker@.len() && 0 <= p < x.pixels_by_sticker@[s]@.len() implies (
    #[trigger] x.pixels_by_sticker@[s]@[p].stores@.len()) == x.num_colors as int by {
        assert(slot_pixel_wf(
            &x.pixels_by_sticker@[s]@[p],
            x.num_colors as int,
            x.image_size as int,
        ));
    }
    assert forall|s: int, p: int|
        0 <= s < y.pixels_by_sticker@.len() && 0 <= p < y.pixels_by_sticker@[s]@.len() implies (
    #[trigger] y.pixels_by_sticker@[s]@[p].stores@.len()) == x.num_colors as int by {
        assert(slot_pixel_wf(
            &y.pixels_by_sticker@[s]@[p],
            y.num_colors as int,
            y.image_size as int,
        ));
    }

    let hdr_x: Seq<u64> = seq![
        x.num_colors as u64,
        x.image_size as u64,
        x.pixels_by_sticker@.len() as u64,
    ];
    let hdr_y: Seq<u64> = seq![
        y.num_colors as u64,
        y.image_size as u64,
        y.pixels_by_sticker@.len() as u64,
    ];
    assert(enc_inf(x) =~= hdr_x + (enc_faces(x.white_balance_by_face@) + enc_slots(
        x.pixels_by_sticker@,
    )));
    assert(enc_inf(y) =~= hdr_y + (enc_faces(y.white_balance_by_face@) + enc_slots(
        y.pixels_by_sticker@,
    )));
    lemma_concat_split(
        hdr_x,
        enc_faces(x.white_balance_by_face@) + enc_slots(x.pixels_by_sticker@),
        hdr_y,
        enc_faces(y.white_balance_by_face@) + enc_slots(y.pixels_by_sticker@),
    );
    lemma_peel_faces(
        x.white_balance_by_face@,
        y.white_balance_by_face@,
        enc_slots(x.pixels_by_sticker@),
        enc_slots(y.pixels_by_sticker@),
    );
    assert(enc_slots(x.pixels_by_sticker@) + Seq::<u64>::empty() =~= enc_slots(
        x.pixels_by_sticker@,
    ));
    assert(enc_slots(y.pixels_by_sticker@) + Seq::<u64>::empty() =~= enc_slots(
        y.pixels_by_sticker@,
    ));
    lemma_peel_slots(
        x.pixels_by_sticker@,
        y.pixels_by_sticker@,
        Seq::<u64>::empty(),
        Seq::<u64>::empty(),
        x.num_colors as int,
    );
}

/// Serializes the engine's whole state into a word blob: exactly its
/// persisted form `enc_inf`.
pub fn to_words(inf: &Inference) -> (r: Vec<u64>)
    requires
        inf.wf(),
    ensures
        r@ == enc_inf(*inf),
{
    let ghost hdr: Seq<u64> = seq![
        inf.num_colors as u64,
        inf.image_size as u64,
        inf.pixels_by_sticker@.len() as u64,
    ];
    let mut w: Vec<u64> = Vec::new();
    let ncol = inf.num_colors;
    let n_slots = inf.pixels_by_sticker.len();
    w.push(ncol as u64);
    w.push(inf.image_size as u64);
    w.push(n_slots as u64);
    proof {
        assert(inf.white_balance_by_face@.take(0) =~= Seq::<Vec<usize>>::empty());
        assert(w@ =~= hdr + enc_faces(inf.white_balance_by_face@.take(0)));
    }

    let mut f: usize = 0;
    while f < ncol
        invariant
            inf.wf(),
            ncol == inf.colors(),
            f <= ncol,
            w@ == hdr + enc_faces(inf.white_balance_by_face@.take(f as int)),
        decreases ncol - f,
    {
        let refs = &inf.white_balance_by_face[f];
        let nr = refs.len();
        w.push(nr as u64);
        proof {
            assert(refs@.take(0) =~= Seq::<usize>::empty());
            assert(w@ =~= hdr + enc_faces(inf.white_balance_by_face@.take(f as int)) + seq![
                nr as u64,
            ] + enc_refs(refs@.take(0)));
        }
        let mut t: usize = 0;
        while t < nr
            invariant
                inf.wf(),
                ncol == inf.colors(),
                f < ncol,
                refs@ == inf.white_balance_by_face@[f as int]@,
                nr == refs@.len(),
                t <= nr,
                w@ == hdr + enc_faces(inf.white_balance_by_face@.take(f as int)) + seq![
                    nr as u64,
                ] + enc_refs(refs@.take(t as int)),
            decreases nr - t,
        {
            w.push(refs[t] as u64);
            proof {
                assert(refs@.take(t + 1) =~= refs@.take(t as int).push(refs@[t as int]));
                lemma_enc_refs_push(refs@.take(t as int), refs@[t as int]);
                assert(w@ =~= hdr + enc_faces(inf.white_balance_by_face@.take(f as int)) + seq![
                    nr as u64,
                ] + enc_refs(refs@.take(t + 1)));
            }
            t = t + 1;
        }
        proof {
            assert(refs@.take(nr as int) =~= refs@);
            assert(inf.white_balance_by_face@.take(f + 1) =~= inf.white_balance_by_face@.take(
                f as int,
            ).push(inf.white_balance_by_face@[f as int]));
            lemma_enc_faces_push(
                inf.white_balance_by_face@.take(f as int),
                inf.white_balance_by_face@[f as int],
            );
            assert(seq![nr as u64] + enc_refs(refs@) =~= enc_face(refs@));
            assert(w@ =~= hdr + enc_faces(inf.white_balance_by_face@.take(f + 1)));
        }
        f = f + 1;
    }

    proof {
        assert(inf.white_balance_by_face@.take(ncol as int) =~= inf.white_balance_by_face@);
        assert(inf.pixels_by_sticker@.take(0) =~= Seq::<Vec<SlotPixel>>::empty());
        assert(enc_slots(inf.pixels_by_sticker@.take(0)) =~= Seq::<u64>::empty());
    }
    let ghost base: Seq<u64> = hdr + enc_faces(inf.white_balance_by_face@);
    proof {
        assert(w@ =~= base + enc_slots(inf.pixels_by_sticker@.take(0)));
    }

    let mut s: usize = 0;
    while s < n_slots
        invariant
            inf.wf(),
            ncol == inf.colors(),
            n_slots == inf.slot_count(),
            s <= n_slots,
            w@ == base + enc_slots(inf.pixels_by_sticker@.take(s as int)),
        decreases n_slots - s,
    {
        let slotv = &inf.pixels_by_sticker[s];
        let np = slotv.len();
        w.push(np as u64);
        let ghost base_s: Seq<u64> = base + enc_slots(inf.pixels_by_sticker@.take(s as int))
            + seq![np as u64];
        proof {
            assert(slotv@.take(0) =~= Seq::<SlotPixel>::empty());
            assert(w@ =~= base_s + enc_pixels(slotv@.take(0)));
        }
        let mut p: usize = 0;
        while p < np
            invariant
                inf.wf(),
                ncol == inf.colors(),
                n_slots == inf.slot_count(),
                s < n_slots,
                slotv@ == inf.pixels_by_sticker@[s as int]@,
                np == slotv@.len(),
                p <= np,
                base_s == base + enc_slots(inf.pixels_by_sticker@.take(s as int)) + seq![
                    np as u64,
                ],
                w@ == base_s + enc_pixels(slotv@.take(p as int)),
            decreases np - p,
        {
            let sp = &slotv[p];
            proof {
                assert(slot_pixel_wf(
                    &inf.pixels_by_sticker@[s as int]@[p as int],
                    ncol as int,
                    inf.image_size as int,
                ));
            }
            w.push(sp.idx as u64);
            let ghost base_p: Seq<u64> = base_s + enc_pixels(slotv@.take(p as int)) + seq![
                sp.idx as u64,
            ];
            proof {
                assert(sp.stores@.take(0) =~= Seq::<ColorStore>::empty());
                assert(w@ =~= base_p + enc_stores(sp.stores@.take(0)));
            }
            let mut c: usize = 0;
            while c < ncol
                invariant
                    inf.wf(),
                    ncol == inf.colors(),
                    s < n_slots,
                    n_slots == inf.slot_count(),
                    slotv@ == inf.pixels_by_sticker@[s as int]@,
                    np == slotv@.len(),
                    p < np,
                    sp == &inf.pixels_by_sticker@[s as int]@[p as int],
                    sp.stores@.len() == ncol,
                    c <= ncol,
                    base_p == base_s + enc_pixels(slotv@.take(p as int)) + seq![sp.idx as u64],
                    w@ == base_p + enc_stores(sp.stores@.take(c as int)),
                decreases ncol - c,
            {
                let st = &sp.stores[c];
                let sl = st.len();
                w.push(sl as u64);
                let ghost base_c: Seq<u64> = base_p + enc_stores(sp.stores@.take(c as int))
                    + seq![sl as u64];
                proof {
                    assert(st@.take(0) =~= Seq::<Point>::empty());
                    assert(w@ =~= base_c + enc_points(st@.take(0)));
                }
                let mut i: usize = 0;
                while i < sl
                    invariant
                        st@ == inf.pixels_by_sticker@[s as int]@[p as int].stores@[c as int]@,
                        sl == st@.len(),
                        i <= sl,
                        base_c == base_p + enc_stores(sp.stores@.take(c as int)) + seq![
                            sl as u64,
                        ],
                        sp == &inf.pixels_by_sticker@[s as int]@[p as int],
                        w@ == base_c + enc_points(st@.take(i as int)),
                    decreases sl - i,
                {
                    let pt = st.get(i);
                    w.push(pt.0);
                    w.push(pt.1);
                    w.push(pt.2);
                    proof {
                        assert(st@.take(i + 1) =~= st@.take(i as int).push(st@[i as int]));
                        lemma_enc_points_push(st@.take(i as int), st@[i as int]);
                        assert(w@ =~= base_c + enc_points(st@.take(i + 1)));
                    }
                    i = i + 1;
                }
                proof {
                    assert(st@.take(sl as int) =~= st@);
                    assert(sp.stores@.take(c + 1) =~= sp.stores@.take(c as int).push(
                        sp.stores@[c as int],
                    ));
                    lemma_enc_stores_push(sp.stores@.take(c as int), sp.stores@[c as int]);
                    assert(seq![sl as u64] + enc_points(st@) =~= enc_store(sp.stores@[c as int]));
                    assert(w@ =~= base_p + enc_stores(sp.stores@.take(c + 1)));
                }
                c = c + 1;
            }
            proof {
                assert(sp.stores@.take(ncol as int) =~= sp.stores@);
                assert(slotv@.take(p + 1) =~= slotv@.take(p as int).push(slotv@[p as int]));
                lemma_enc_pixels_push(slotv@.take(p as int), slotv@[p as int]);
                assert(seq![sp.idx as u64] + enc_stores(sp.stores@) =~= enc_pixel(
                    slotv@[p as int],
                ));
                assert(w@ =~= base_s + enc_pixels(slotv@.take(p + 1)));
            }
            p = p + 1;
        }
        proof {
            assert(slotv@.take(np as int) =~= slotv@);
            assert(inf.pixels_by_sticker@.take(s + 1) =~= inf.pixels_by_sticker@.take(
                s as int,
            ).push(inf.pixels_by_sticker@[s as int]));
            lemma_enc_slots_push(
                inf.pixels_by_sticker@.take(s as int),
                inf.pixels_by_sticker@[s as int],
            );
            assert(seq![np as u64] + enc_pixels(slotv@) =~= enc_slot(slotv@));
            assert(w@ =~= base + enc_slots(inf.pixels_by_sticker@.take(s + 1)));
        }
        s = s + 1;
    }
    proof {
        assert(inf.pixels_by_sticker@.take(n_slots as int) =~= inf.pixels_by_sticker@);
        assert(w@ =~= enc_inf(*inf));
    }
    w
}

fn take(w: &Vec<u64>, cur: &mut usize) -> (r: Option<u64>)
    ensures
        match r {
            Some(v) => *old(cur) < w@.len() && v == w@[*old(cur) as int] && *final(cur) == *old(
                cur,
            ) + 1,
            None => *final(cur) == *old(cur) && *old(cur) >= w@.len(),
        },
{
    if *cur < w.len() {
        let v = w[*cur];
        *cur = *cur + 1;
        Some(v)
    } else {
        None
    }
}

/// Rebuilds an engine from a word blob. The blob holds the engine alone;
/// the puzzle-model reference that belongs to a full persisted processor is
/// plain data that the host stores alongside and re-resolves (not
/// re-derives) on load, rebuilding the matcher from it. Every structural
/// bound is checked
/// and the whole blob must be consumed; a malformed blob yields no result
/// rather than a malformed engine. Whatever engine comes back, its persisted
/// form is exactly the blob it was read from; and whenever the blob is the
/// persisted form of some well-formed engine within the decoder's size
/// caps, a result does come back.
pub fn from_words(w: &Vec<u64>) -> (r: Option<Inference>)
    ensures
        match r {
            Some(inf) => inf.wf() && w@ == enc_inf(inf),
            None => true,
        },
        (exists|x: Inference| (#[trigger] enc_inf(x)) == w@ && x.wf() && x.decode_sized())
            ==> r is Some,
{
    let ghost has: bool = exists|x: Inference| (#[trigger] enc_inf(x)) == w@ && x.wf()
        && x.decode_sized();
    let ghost gx: Inference = choose|x: Inference| (#[trigger] enc_inf(x)) == w@ && x.wf()
        && x.decode_sized();
    proof {
        if has {
            assert(enc_inf(gx) == w@ && gx.wf() && gx.decode_sized());
            assert(w@ =~= seq![
                gx.num_colors as u64,
                gx.image_size as u64,
                gx.pixels_by_sticker@.len() as u64,
            ] + (enc_faces(gx.white_balance_by_face@) + enc_slots(gx.pixels_by_sticker@)));
        }
    }
    let mut cur: usize = 0;
    let ncol64 = match take(w, &mut cur) {
        Some(v) => v,
        None => {
            proof {
                if has {
                    assert(false);
                }
            }
            return None;
        },
    };
    if ncol64 < 1 || ncol64 > 0x10000 {
        proof {
            if has {
                assert(ncol64 == gx.num_colors as u64);
                assert(false);
            }
        }
        return None;
    }
    let ncol = ncol64 as usize;
    let isz64 = match take(w, &mut cur) {
        Some(v) => v,
        None => {
            proof {
                if has {
                    assert(false);
                }
            }
            return None;
        },
    };
    if isz64 > 0x1000_0000 {
        proof {
            if has {
                assert(isz64 == gx.image_size as u64);
                assert(false);
            }
        }
        return None;
    }
    let image_size = isz64 as usize;
    let nsl64 = match take(w, &mut cur) {
        Some(v) => v,
        None => {
            proof {
                if has {
                    assert(false);
                }
            }
            return None;
        },
    };
    if nsl64 > 0x10000 {
        proof {
            if has {
                assert(nsl64 == gx.pixels_by_sticker@.len() as u64);
                assert(false);
            }
        }
        return None;
    }
    let n_slots = nsl64 as usize;
    let ghost hdr: Seq<u64> = seq![ncol64, isz64, nsl64];
    proof {
        assert(w@.take(cur as int) =~= hdr);
        if has {
            assert(ncol == gx.num_colors && image_size == gx.image_size && n_slots
                == gx.pixels_by_sticker@.len());
            assert(w@.subrange(cur as int, w@.len() as int) =~= enc_faces(
                gx.white_balance_by_face@.skip(0),
            ) + enc_slots(gx.pixels_by_sticker@)) by {
                assert(gx.white_balance_by_face@.skip(0) =~= gx.white_balance_by_face@);
            }
        }
    }

    let mut white_balance_by_face: Vec<Vec<usize>> = Vec::new();
    proof {
        assert(enc_faces(white_balance_by_face@) == Seq::<u64>::empty());
        assert(w@.take(cur as int) =~= hdr + enc_faces(white_balance_by_face@));
    }
    let mut f: usize = 0;
    while f < ncol
        invariant
            f <= ncol,
            1 <= ncol <= 0x10000,
            image_size <= 0x1000_0000,
            cur <= w@.len(),
            white_balance_by_face@.len() == f,
            forall|f2: int|
                0 <= f2 < f ==> (#[trigger] white_balance_by_face@[f2])@.len() <= image_size,
            forall|f2: int, t: int|
                0 <= f2 < f && 0 <= t < white_balance_by_face@[f2]@.len() ==> (
                #[trigger] white_balance_by_face@[f2]@[t]) < image_size,
            w@.take(cur as int) == hdr + enc_faces(white_balance_by_face@),
            has == (exists|x: Inference| (#[trigger] enc_inf(x)) == w@ && x.wf() && x.decode_sized()),
            has ==> gx.wf() && gx.decode_sized(),
            has ==> ncol == gx.num_colors && image_size == gx.image_size && n_slots
                == gx.pixels_by_sticker@.len(),
            has ==> w@.subrange(cur as int, w@.len() as int) == enc_faces(
                gx.white_balance_by_face@.skip(f as int),
            ) + enc_slots(gx.pixels_by_sticker@),
        decreases ncol - f,
    {
        proof {
            if has {
                let fs = gx.white_balance_by_face@.skip(f as int);
                assert(fs.len() == ncol - f > 0);
                assert(fs[0] == gx.white_balance_by_face@[f as int]);
                assert(enc_faces(fs) == enc_face(fs[0]@) + enc_faces(fs.drop_first()));
                assert(w@.subrange(cur as int, w@.len() as int)[0]
                    == gx.white_balance_by_face@[f as int]@.len() as u64);
                assert(cur < w@.len());
                assert(w@[cur as int] == gx.white_balance_by_face@[f as int]@.len() as u64);
            }
        }
        let nr64 = match take(w, &mut cur) {
            Some(v) => v,
            None => {
                proof {
                    if has {
                        assert(false);
                    }
                }
                return None;
            },
        };
        if nr64 > image_size as u64 {
            proof {
                if has {
                    assert(false);
                }
            }
            return None;
        }
        let nr = nr64 as usize;
        let ghost base_f: Seq<u64> = hdr + enc_faces(white_balance_by_face@);
        proof {
            assert(w@.take(cur as int) =~= base_f.push(nr64));
            assert(base_f.push(nr64) =~= base_f + seq![nr64]);
            if has {
                let fs = gx.white_balance_by_face@.skip(f as int);
                assert(fs.drop_first() =~= gx.white_balance_by_face@.skip(f + 1));
                assert(w@.subrange(cur as int, w@.len() as int) =~= enc_refs(
                    gx.white_balance_by_face@[f as int]@.skip(0),
                ) + (enc_faces(gx.white_balance_by_face@.skip(f + 1)) + enc_slots(
                    gx.pixels_by_sticker@,
                ))) by {
                    assert(w@.subrange((cur - 1) as int, w@.len() as int).drop_first()
                        =~= w@.subrange(cur as int, w@.len() as int));
                    assert(gx.white_balance_by_face@[f as int]@.skip(0)
                        =~= gx.white_balance_by_face@[f as int]@);
                    assert((enc_face(fs[0]@) + enc_faces(fs.drop_first()) + enc_slots(
                        gx.pixels_by_sticker@,
                    )).drop_first() =~= enc_refs(gx.white_balance_by_face@[f as int]@) + (
                    enc_faces(gx.white_balance_by_face@.skip(f + 1)) + enc_slots(
                        gx.pixels_by_sticker@,
                    )));
                }
                assert(nr == gx.white_balance_by_face@[f as int]@.len());
            }
        }
        let mut refs: Vec<usize> = Vec::new();
        proof {
            assert(enc_refs(refs@) == Seq::<u64>::empty());
            assert(w@.take(cur as int) =~= base_f + seq![nr64] + enc_refs(refs@));
        }
        let mut t: usize = 0;
        while t < nr
            invariant
                t <= nr,
                nr <= image_size,
                nr64 == nr as u64,
                f < ncol,
                1 <= ncol <= 0x10000,
                image_size <= 0x1000_0000,
                cur <= w@.len(),
                refs@.len() == t,
                forall|t2: int| 0 <= t2 < t ==> (#[trigger] refs@[t2]) < image_size,
                base_f == hdr + enc_faces(white_balance_by_face@),
                white_balance_by_face@.len() == f,
                w@.take(cur as int) == base_f + seq![nr64] + enc_refs(refs@),
                has == (exists|x: Inference| (#[trigger] enc_inf(x)) == w@ && x.wf() && x.decode_sized()),
            has ==> gx.wf() && gx.decode_sized(),
                has ==> ncol == gx.num_colors && image_size == gx.image_size && n_slots
                    == gx.pixels_by_sticker@.len(),
                has ==> nr == gx.white_balance_by_face@[f as int]@.len(),
                has ==> w@.subrange(cur as int, w@.len() as int) == enc_refs(
                    gx.white_balance_by_face@[f as int]@.skip(t as int),
                ) + (enc_faces(gx.white_balance_by_face@.skip(f + 1)) + enc_slots(
                    gx.pixels_by_sticker@,
                )),
            decreases nr - t,
        {
            proof {
                if has {
                    let rs = gx.white_balance_by_face@[f as int]@.skip(t as int);
                    assert(rs.len() == nr - t > 0);
                    assert(rs[0] == gx.white_balance_by_face@[f as int]@[t as int]);
                    assert(enc_refs(rs) == seq![rs[0] as u64] + enc_refs(rs.drop_first()));
                    assert(w@.subrange(cur as int, w@.len() as int)[0] == rs[0] as u64);
                    assert(cur < w@.len());
                    assert(w@[cur as int] == rs[0] as u64);
                }
            }
            let v64 = match take(w, &mut cur) {
                Some(v) => v,
                None => {
                    proof {
                        if has {
                            assert(false);
                        }
                    }
                    return None;
                },
            };
            if v64 >= image_size as u64 {
                proof {
                    if has {
                        assert(gx.white_balance_by_face@[f as int]@[t as int]
                            < gx.image_size);
                        assert(false);
                    }
                }
                return None;
            }
            proof {
                lemma_enc_refs_push(refs@, (v64 as usize));
                assert(w@.take(cur as int) =~= (base_f + seq![nr64] + enc_refs(refs@)).push(
                    v64,
                ));
                assert((base_f + seq![nr64] + enc_refs(refs@)).push(v64) =~= base_f + seq![nr64]
                    + (enc_refs(refs@) + seq![((v64 as usize) as u64)]));
                if has {
                    let rs = gx.white_balance_by_face@[f as int]@.skip(t as int);
                    assert(rs.drop_first() =~= gx.white_balance_by_face@[f as int]@.skip(t + 1));
                    assert(w@.subrange((cur - 1) as int, w@.len() as int).drop_first()
                        =~= w@.subrange(cur as int, w@.len() as int));
                    assert((seq![rs[0] as u64] + enc_refs(rs.drop_first()) + (enc_faces(
                        gx.white_balance_by_face@.skip(f + 1),
                    ) + enc_slots(gx.pixels_by_sticker@))).drop_first() =~= enc_refs(
                        gx.white_balance_by_face@[f as int]@.skip(t + 1),
                    ) + (enc_faces(gx.white_balance_by_face@.skip(f + 1)) + enc_slots(
                        gx.pixels_by_sticker@,
                    )));
                }
            }
            refs.push(v64 as usize);
            t = t + 1;
        }
        proof {
            lemma_enc_faces_push(white_balance_by_face@, refs);
            assert(seq![nr64] + enc_refs(refs@) =~= enc_face(refs@));
            assert(base_f + enc_face(refs@) =~= hdr + (enc_faces(white_balance_by_face@)
                + enc_face(refs@)));
            assert(w@.take(cur as int) =~= hdr + enc_faces(white_balance_by_face@.push(refs)));
            if has {
                assert(gx.white_balance_by_face@[f as int]@.skip(nr as int)
                    =~= Seq::<usize>::empty());
                assert(w@.subrange(cur as int, w@.len() as int) =~= enc_faces(
                    gx.white_balance_by_face@.skip(f + 1),
                ) + enc_slots(gx.pixels_by_sticker@));
            }
        }
        white_balance_by_face.push(refs);
        f = f + 1;
    }

    let ghost base: Seq<u64> = hdr + enc_faces(white_balance_by_face@);
    let mut pixels_by_sticker: Vec<Vec<SlotPixel>> = Vec::new();
    proof {
        assert(enc_slots(pixels_by_sticker@) == Seq::<u64>::empty());
        assert(w@.take(cur as int) =~= base + enc_slots(pixels_by_sticker@));
        if has {
            assert(gx.white_balance_by_face@.len() == ncol);
            assert(gx.white_balance_by_face@.skip(ncol as int) =~= Seq::<Vec<usize>>::empty());
            assert(w@.subrange(cur as int, w@.len() as int) =~= enc_slots(
                gx.pixels_by_sticker@.skip(0),
            )) by {
                assert(enc_faces(gx.white_balance_by_face@.skip(ncol as int))
                    =~= Seq::<u64>::empty());
                assert(gx.pixels_by_sticker@.skip(0) =~= gx.pixels_by_sticker@);
            }
        }
    }
    let mut s: usize = 0;
    while s < n_slots
        invariant
            s <= n_slots,
            n_slots <= 0x10000,
            1 <= ncol <= 0x10000,
            image_size <= 0x1000_0000,
            cur <= w@.len(),
            pixels_by_sticker@.len() == s,
            forall|s2: int, p2: int|
                0 <= s2 < s && 0 <= p2 < pixels_by_sticker@[s2]@.len() ==> slot_pixel_wf(
                    &(#[trigger] pixels_by_sticker@[s2]@[p2]),
                    ncol as int,
                    image_size as int,
                ),
            base == hdr + enc_faces(white_balance_by_face@),
            white_balance_by_face@.len() == ncol,
            w@.take(cur as int) == base + enc_slots(pixels_by_sticker@),
            has == (exists|x: Inference| (#[trigger] enc_inf(x)) == w@ && x.wf() && x.decode_sized()),
            has ==> gx.wf() && gx.decode_sized(),
            has ==> ncol == gx.num_colors && image_size == gx.image_size && n_slots
                == gx.pixels_by_sticker@.len(),
            has ==> w@.subrange(cur as int, w@.len() as int) == enc_slots(
                gx.pixels_by_sticker@.skip(s as int),
            ),
        decreases n_slots - s,
    {
        proof {
            if has {
                let sl0 = gx.pixels_by_sticker@.skip(s as int);
                assert(sl0.len() == n_slots - s > 0);
                assert(sl0[0] == gx.pixels_by_sticker@[s as int]);
                assert(enc_slots(sl0) == enc_slot(sl0[0]@) + enc_slots(sl0.drop_first()));
                assert(w@.subrange(cur as int, w@.len() as int)[0]
                    == gx.pixels_by_sticker@[s as int]@.len() as u64);
                assert(cur < w@.len());
                assert(w@[cur as int] == gx.pixels_by_sticker@[s as int]@.len() as u64);
                assert(gx.pixel_count(s as int) <= 0x1000_0000);
            }
        }
        let np64 = match take(w, &mut cur) {
            Some(v) => v,
            None => {
                proof {
                    if has {
                        assert(false);
                    }
                }
                return None;
            },
        };
        if np64 > 0x1000_0000 {
            proof {
                if has {
                    assert(false);
                }
            }
            return None;
        }
        let np = np64 as usize;
        let ghost base_s: Seq<u64> = base + enc_slots(pixels_by_sticker@);
        proof {
            assert(w@.take(cur as int) =~= base_s.push(np64));
            assert(base_s.push(np64) =~= base_s + seq![np64]);
            if has {
                let sl0 = gx.pixels_by_sticker@.skip(s as int);
                assert(sl0.drop_first() =~= gx.pixels_by_sticker@.skip(s + 1));
                assert(np == gx.pixels_by_sticker@[s as int]@.len());
                assert(w@.subrange((cur - 1) as int, w@.len() as int).drop_first()
                    =~= w@.subrange(cur as int, w@.len() as int));
                assert((enc_slot(sl0[0]@) + enc_slots(sl0.drop_first())).drop_first()
                    =~= enc_pixels(gx.pixels_by_sticker@[s as int]@.skip(0)) + enc_slots(
                    gx.pixels_by_sticker@.skip(s + 1),
                )) by {
                    assert(gx.pixels_by_sticker@[s as int]@.skip(0)
                        =~= gx.pixels_by_sticker@[s as int]@);
                }
                assert(w@.subrange(cur as int, w@.len() as int) =~= enc_pixels(
                    gx.pixels_by_sticker@[s as int]@.skip(0),
                ) + enc_slots(gx.pixels_by_sticker@.skip(s + 1)));
            }
        }
        let mut pixels: Vec<SlotPixel> = Vec::new();
        proof {
            assert(enc_pixels(pixels@) == Seq::<u64>::empty());
            assert(w@.take(cur as int) =~= base_s + seq![np64] + enc_pixels(pixels@));
        }
        let mut p: usize = 0;
        while p < np
            invariant
                p <= np,
                np64 == np as u64,
                s < n_slots,
                1 <= ncol <= 0x10000,
                image_size <= 0x1000_0000,
                cur <= w@.len(),
                pixels@.len() == p,
                forall|p2: int| 0 <= p2 < p ==> slot_pixel_wf(
                    &(#[trigger] pixels@[p2]),
                    ncol as int,
                    image_size as int,
                ),
                base_s == base + enc_slots(pixels_by_sticker@),
                pixels_by_sticker@.len() == s,
                w@.take(cur as int) == base_s + seq![np64] + enc_pixels(pixels@),
                has == (exists|x: Inference| (#[trigger] enc_inf(x)) == w@ && x.wf() && x.decode_sized()),
            has ==> gx.wf() && gx.decode_sized(),
                has ==> ncol == gx.num_colors && image_size == gx.image_size && n_slots
                    == gx.pixels_by_sticker@.len(),
                has ==> np == gx.pixels_by_sticker@[s as int]@.len(),
                has ==> w@.subrange(cur as int, w@.len() as int) == enc_pixels(
                    gx.pixels_by_sticker@[s as int]@.skip(p as int),
                ) + enc_slots(gx.pixels_by_sticker@.skip(s + 1)),
            decreases np - p,
        {
            proof {
                if has {
                    let ps0 = gx.pixels_by_sticker@[s as int]@.skip(p as int);
                    assert(ps0.len() == np - p > 0);
                    assert(ps0[0] == gx.pixels_by_sticker@[s as int]@[p as int]);
                    assert(enc_pixels(ps0) == enc_pixel(ps0[0]) + enc_pixels(ps0.drop_first()));
                    assert(w@.subrange(cur as int, w@.len() as int)[0] == ps0[0].idx as u64);
                    assert(cur < w@.len());
                    assert(w@[cur as int] == ps0[0].idx as u64);
                    assert(slot_pixel_wf(
                        &gx.pixels_by_sticker@[s as int]@[p as int],
                        gx.num_colors as int,
                        gx.image_size as int,
                    ));
                }
            }
            let ix64 = match take(w, &mut cur) {
                Some(v) => v,
                None => {
                    proof {
                        if has {
                            assert(false);
                        }
                    }
                    return None;
                },
            };
            if ix64 >= image_size as u64 {
                proof {
                    if has {
                        assert(false);
                    }
                }
                return None;
            }
            let ix = ix64 as usize;
            let ghost base_p: Seq<u64> = base_s + seq![np64] + enc_pixels(pixels@);
            proof {
                assert(w@.take(cur as int) =~= base_p.push(ix64));
                assert(base_p.push(ix64) =~= base_p + seq![ix64]);
                if has {
                    let ps0 = gx.pixels_by_sticker@[s as int]@.skip(p as int);
                    assert(w@.subrange((cur - 1) as int, w@.len() as int).drop_first()
                        =~= w@.subrange(cur as int, w@.len() as int));
                    assert((enc_pixel(ps0[0]) + (enc_pixels(ps0.drop_first()) + enc_slots(
                        gx.pixels_by_sticker@.skip(s + 1),
                    ))).drop_first() =~= enc_stores(ps0[0].stores@.skip(0)) + (enc_pixels(
                        ps0.drop_first(),
                    ) + enc_slots(gx.pixels_by_sticker@.skip(s + 1)))) by {
                        assert(ps0[0].stores@.skip(0) =~= ps0[0].stores@);
                    }
                    assert(enc_pixels(ps0) + enc_slots(gx.pixels_by_sticker@.skip(s + 1))
                        =~= enc_pixel(ps0[0]) + (enc_pixels(ps0.drop_first()) + enc_slots(
                        gx.pixels_by_sticker@.skip(s + 1),
                    )));
                    assert(w@.subrange(cur as int, w@.len() as int) =~= enc_stores(
                        gx.pixels_by_sticker@[s as int]@[p as int].stores@.skip(0),
                    ) + (enc_pixels(gx.pixels_by_sticker@[s as int]@.skip(p + 1)) + enc_slots(
                        gx.pixels_by_sticker@.skip(s + 1),
                    ))) by {
                        assert(ps0.drop_first() =~= gx.pixels_by_sticker@[s as int]@.skip(
                            p + 1,
                        ));
                    }
                }
            }
            let mut stores: Vec<ColorStore> = Vec::new();
            proof {
                assert(enc_stores(stores@) == Seq::<u64>::empty());
                assert(w@.take(cur as int) =~= base_p + seq![ix64] + enc_stores(stores@));
            }
            let mut c: usize = 0;
            while c < ncol
                invariant
                    c <= ncol,
                    ix64 == ix as u64,
                    ix < image_size,
                    s < n_slots,
                    p < np,
                    1 <= ncol <= 0x10000,
                    image_size <= 0x1000_0000,
                    cur <= w@.len(),
                    stores@.len() == c,
                    forall|c2: int| 0 <= c2 < c ==> (#[trigger] stores@[c2]).wf(),
                    base_p == base_s + seq![np64] + enc_pixels(pixels@),
                    pixels@.len() == p,
                    w@.take(cur as int) == base_p + seq![ix64] + enc_stores(stores@),
                    has == (exists|x: Inference| (#[trigger] enc_inf(x)) == w@ && x.wf() && x.decode_sized()),
            has ==> gx.wf() && gx.decode_sized(),
                    has ==> ncol == gx.num_colors && image_size == gx.image_size && n_slots
                        == gx.pixels_by_sticker@.len(),
                    has ==> np == gx.pixels_by_sticker@[s as int]@.len(),
                    has ==> w@.subrange(cur as int, w@.len() as int) == enc_stores(
                        gx.pixels_by_sticker@[s as int]@[p as int].stores@.skip(c as int),
                    ) + (enc_pixels(gx.pixels_by_sticker@[s as int]@.skip(p + 1)) + enc_slots(
                        gx.pixels_by_sticker@.skip(s + 1),
                    )),
                decreases ncol - c,
            {
                proof {
                    if has {
                        assert(slot_pixel_wf(
                            &gx.pixels_by_sticker@[s as int]@[p as int],
                            gx.num_colors as int,
                            gx.image_size as int,
                        ));
                        let ss0 = gx.pixels_by_sticker@[s as int]@[p as int].stores@.skip(
                            c as int,
                        );
                        assert(ss0.len() == ncol - c > 0);
                        assert(ss0[0] == gx.pixels_by_sticker@[s as int]@[p as int].stores@[
                            c as int]);
                        assert(enc_stores(ss0) == enc_store(ss0[0]) + enc_stores(
                            ss0.drop_first(),
                        ));
                        assert(w@.subrange(cur as int, w@.len() as int)[0]
                            == ss0[0]@.len() as u64);
                        assert(cur < w@.len());
                        assert(w@[cur as int] == ss0[0]@.len() as u64);
                        assert(gx.store_at(s as int, p as int, c as int).len()
                            <= 0xFFFF_FFFF);
                    }
                }
                let sl64 = match take(w, &mut cur) {
                    Some(v) => v,
                    None => {
                        proof {
                            if has {
                                assert(false);
                            }
                        }
                        return None;
                    },
                };
                if sl64 > 0xFFFF_FFFF {
                    proof {
                        if has {
                            assert(false);
                        }
                    }
                    return None;
                }
                let sl = sl64 as usize;
                let ghost base_c: Seq<u64> = base_p + seq![ix64] + enc_stores(stores@);
                proof {
                    assert(w@.take(cur as int) =~= base_c.push(sl64));
                    assert(base_c.push(sl64) =~= base_c + seq![sl64]);
                    if has {
                        let ss0 = gx.pixels_by_sticker@[s as int]@[p as int].stores@.skip(
                            c as int,
                        );
                        assert(sl == ss0[0]@.len());
                        assert(w@.subrange((cur - 1) as int, w@.len() as int).drop_first()
                            =~= w@.subrange(cur as int, w@.len() as int));
                        assert((enc_store(ss0[0]) + (enc_stores(ss0.drop_first()) + (enc_pixels(
                            gx.pixels_by_sticker@[s as int]@.skip(p + 1),
                        ) + enc_slots(gx.pixels_by_sticker@.skip(s + 1))))).drop_first()
                            =~= enc_points(ss0[0]@.skip(0)) + (enc_stores(ss0.drop_first()) + (
                        enc_pixels(gx.pixels_by_sticker@[s as int]@.skip(p + 1)) + enc_slots(
                            gx.pixels_by_sticker@.skip(s + 1),
                        )))) by {
                            assert(ss0[0]@.skip(0) =~= ss0[0]@);
                        }
                        assert(enc_stores(ss0) + (enc_pixels(
                            gx.pixels_by_sticker@[s as int]@.skip(p + 1),
                        ) + enc_slots(gx.pixels_by_sticker@.skip(s + 1))) =~= enc_store(ss0[0])
                            + (enc_stores(ss0.drop_first()) + (enc_pixels(
                            gx.pixels_by_sticker@[s as int]@.skip(p + 1),
                        ) + enc_slots(gx.pixels_by_sticker@.skip(s + 1)))));
                        assert(w@.subrange(cur as int, w@.len() as int) =~= enc_points(
                            ss0[0]@.skip(0),
                        ) + (enc_stores(ss0.drop_first()) + (enc_pixels(
                            gx.pixels_by_sticker@[s as int]@.skip(p + 1),
                        ) + enc_slots(gx.pixels_by_sticker@.skip(s + 1)))));
                        assert(ss0[0] == gx.pixels_by_sticker@[s as int]@[p as int].stores@[
                            c as int]);
                        assert(ss0.drop_first()
                            =~= gx.pixels_by_sticker@[s as int]@[p as int].stores@.skip(c + 1));
                        assert(ss0[0]@.skip(0) =~= gx.pixels_by_sticker@[s as int]@[
                            p as int].stores@[c as int]@.skip(0));
                    }
                }
                let mut st = ColorStore::new();
                proof {
                    assert(enc_points(st@) == Seq::<u64>::empty());
                    assert(w@.take(cur as int) =~= base_c + seq![sl64] + enc_points(st@));
                }
                let mut i: usize = 0;
                while i < sl
                    invariant
                        i <= sl,
                        sl64 == sl as u64,
                        s < n_slots,
                        p < np,
                        c < ncol,
                        1 <= ncol <= 0x10000,
                        cur <= w@.len(),
                        st.wf(),
                        st@.len() == i,
                        base_c == base_p + seq![ix64] + enc_stores(stores@),
                        stores@.len() == c,
                        w@.take(cur as int) == base_c + seq![sl64] + enc_points(st@),
                        has == (exists|x: Inference| (#[trigger] enc_inf(x)) == w@ && x.wf() && x.decode_sized()),
            has ==> gx.wf() && gx.decode_sized(),
                        has ==> n_slots == gx.pixels_by_sticker@.len() && ncol
                            == gx.num_colors,
                        has ==> np == gx.pixels_by_sticker@[s as int]@.len(),
                        has ==> sl == gx.pixels_by_sticker@[s as int]@[p as int].stores@[
                            c as int]@.len(),
                        has ==> w@.subrange(cur as int, w@.len() as int) == enc_points(
                            gx.pixels_by_sticker@[s as int]@[p as int].stores@[c as int]@.skip(
                                i as int,
                            ),
                        ) + (enc_stores(
                            gx.pixels_by_sticker@[s as int]@[p as int].stores@.skip(c + 1),
                        ) + (enc_pixels(gx.pixels_by_sticker@[s as int]@.skip(p + 1))
                            + enc_slots(gx.pixels_by_sticker@.skip(s + 1)))),
                    decreases sl - i,
                {
                    let ghost rest_i: Seq<u64> = enc_stores(
                        gx.pixels_by_sticker@[s as int]@[p as int].stores@.skip(c + 1),
                    ) + (enc_pixels(gx.pixels_by_sticker@[s as int]@.skip(p + 1)) + enc_slots(
                        gx.pixels_by_sticker@.skip(s + 1),
                    ));
                    proof {
                        if has {
                            let pts = gx.pixels_by_sticker@[s as int]@[p as int].stores@[
                                c as int]@.skip(i as int);
                            assert(pts.len() == sl - i > 0);
                            assert(pts[0] == gx.pixels_by_sticker@[s as int]@[p as int].stores@[
                                c as int]@[i as int]);
                            assert(enc_points(pts) == seq![pts[0].0, pts[0].1, pts[0].2]
                                + enc_points(pts.drop_first()));
                            assert(enc_points(pts) + rest_i =~= seq![
                                pts[0].0,
                                pts[0].1,
                                pts[0].2,
                            ] + (enc_points(pts.drop_first()) + rest_i));
                            assert(w@.subrange(cur as int, w@.len() as int).len() >= 3);
                            assert(cur + 3 <= w@.len());
                            assert(w@.subrange(cur as int, w@.len() as int)[0] == pts[0].0);
                            assert(w@.subrange(cur as int, w@.len() as int)[1] == pts[0].1);
                            assert(w@.subrange(cur as int, w@.len() as int)[2] == pts[0].2);
                            assert(w@[cur as int] == pts[0].0);
                            assert(w@[cur + 1] == pts[0].1);
                            assert(w@[cur + 2] == pts[0].2);
                            assert(slot_pixel_wf(
                                &gx.pixels_by_sticker@[s as int]@[p as int],
                                gx.num_colors as int,
                                gx.image_size as int,
                            ));
                            assert(gx.pixels_by_sticker@[s as int]@[p as int].stores@[
                                c as int].wf());
                            assert(point_ok(pts[0]));
                        }
                    }
                    let x = match take(w, &mut cur) {
                        Some(v) => v,
                        None => {
                            proof {
                                if has {
                                    assert(false);
                                }
                            }
                            return None;
                        },
                    };
                    let y = match take(w, &mut cur) {
                        Some(v) => v,
                        None => {
                            proof {
                                if has {
                                    assert(false);
                                }
                            }
                            return None;
                        },
                    };
                    let z = match take(w, &mut cur) {
                        Some(v) => v,
                        None => {
                            proof {
                                if has {
                                    assert(false);
                                }
                            }
                            return None;
                        },
                    };
                    if x > CORR_MAX || y > CORR_MAX || z > CORR_MAX {
                        proof {
                            if has {
                                assert(false);
                            }
                        }
                        return None;
                    }
                    proof {
                        lemma_enc_points_push(st@, (x, y, z));
                        assert(w@.take(cur as int) =~= ((base_c + seq![sl64] + enc_points(
                            st@,
                        )).push(x).push(y)).push(z));
                        assert(((base_c + seq![sl64] + enc_points(st@)).push(x).push(y)).push(z)
                            =~= base_c + seq![sl64] + (enc_points(st@) + seq![x, y, z]));
                        if has {
                            let pts = gx.pixels_by_sticker@[s as int]@[p as int].stores@[
                                c as int]@.skip(i as int);
                            assert(pts.drop_first() =~= gx.pixels_by_sticker@[s as int]@[
                                p as int].stores@[c as int]@.skip(i + 1));
                            assert(w@.subrange((cur - 3) as int, w@.len() as int)
                                =~= seq![pts[0].0, pts[0].1, pts[0].2] + (enc_points(
                                pts.drop_first(),
                            ) + rest_i));
                            assert(w@.subrange(cur as int, w@.len() as int).len()
                                == enc_points(pts.drop_first()).len() + rest_i.len());
                            assert forall|k: int|
                                0 <= k < w@.len() - cur implies w@.subrange(
                                cur as int,
                                w@.len() as int,
                            )[k] == (enc_points(pts.drop_first()) + rest_i)[k] by {
                                assert(w@.subrange(cur as int, w@.len() as int)[k] == w@[cur
                                    + k]);
                                assert(w@.subrange((cur - 3) as int, w@.len() as int)[k + 3]
                                    == w@[cur + k]);
                                assert((seq![pts[0].0, pts[0].1, pts[0].2] + (enc_points(
                                    pts.drop_first(),
                                ) + rest_i))[k + 3] == (enc_points(pts.drop_first()) + rest_i)[
                                    k]);
                            }
                            assert(w@.subrange(cur as int, w@.len() as int) =~= enc_points(
                                pts.drop_first(),
                            ) + rest_i);
                        }
                    }
                    st.push((x, y, z));
                    i = i + 1;
                }
                proof {
                    lemma_enc_stores_push(stores@, st);
                    assert(seq![sl64] + enc_points(st@) =~= enc_store(st));
                    assert(w@.take(cur as int) =~= base_p + seq![ix64] + (enc_stores(stores@)
                        + enc_store(st)));
                    if has {
                        assert(gx.pixels_by_sticker@[s as int]@[p as int].stores@[
                            c as int]@.skip(sl as int) =~= Seq::<Point>::empty());
                        assert(w@.subrange(cur as int, w@.len() as int) =~= enc_stores(
                            gx.pixels_by_sticker@[s as int]@[p as int].stores@.skip(c + 1),
                        ) + (enc_pixels(gx.pixels_by_sticker@[s as int]@.skip(p + 1))
                            + enc_slots(gx.pixels_by_sticker@.skip(s + 1))));
                    }
                }
                stores.push(st);
                c = c + 1;
            }
            let sp = SlotPixel { idx: ix, stores };
            proof {
                lemma_enc_pixels_push(pixels@, sp);
                assert(seq![ix64] + enc_stores(sp.stores@) =~= enc_pixel(sp));
                assert(w@.take(cur as int) =~= base_s + seq![np64] + (enc_pixels(pixels@)
                    + enc_pixel(sp)));
                if has {
                    assert(slot_pixel_wf(
                        &gx.pixels_by_sticker@[s as int]@[p as int],
                        gx.num_colors as int,
                        gx.image_size as int,
                    ));
                    assert(gx.pixels_by_sticker@[s as int]@[p as int].stores@.skip(
                        ncol as int,
                    ) =~= Seq::<ColorStore>::empty());
                    assert(w@.subrange(cur as int, w@.len() as int) =~= enc_pixels(
                        gx.pixels_by_sticker@[s as int]@.skip(p + 1),
                    ) + enc_slots(gx.pixels_by_sticker@.skip(s + 1)));
                }
            }
            pixels.push(sp);
            p = p + 1;
        }
        proof {
            lemma_enc_slots_push(pixels_by_sticker@, pixels);
            assert(seq![np64] + enc_pixels(pixels@) =~= enc_slot(pixels@));
            assert(w@.take(cur as int) =~= base + (enc_slots(pixels_by_sticker@) + enc_slot(
                pixels@,
            )));
            if has {
                assert(gx.pixels_by_sticker@[s as int]@.skip(np as int)
                    =~= Seq::<SlotPixel>::empty());
                assert(w@.subrange(cur as int, w@.len() as int) =~= enc_slots(
                    gx.pixels_by_sticker@.skip(s + 1),
                )) by {
                    assert(enc_pixels(gx.pixels_by_sticker@[s as int]@.skip(np as int))
                        =~= Seq::<u64>::empty());
                }
            }
        }
        pixels_by_sticker.push(pixels);
        s = s + 1;
    }

    if cur != w.len() {
        proof {
            if has {
                assert(gx.pixels_by_sticker@.skip(n_slots as int)
                    =~= Seq::<Vec<SlotPixel>>::empty());
                assert(w@.subrange(cur as int, w@.len() as int) =~= Seq::<u64>::empty());
                assert(false);
            }
        }
        return None;
    }

    let inf = Inference { pixels_by_sticker, white_balance_by_face, num_colors: ncol, image_size };
    proof {
        assert(inf.wf());
        assert(w@.take(cur as int) =~= w@);
        assert(w@ =~= enc_inf(inf));
    }
    Some(inf)
}

proof fn lemma_samples_upto_eq(
    x: Inference,
    y: Inference,
    img: Seq<Rgb>,
    model: &GroupModel,
    s: int,
    c: int,
    p: int,
)
    requires
        eq_state(x, y),
        x.wf(),
        y.wf(),
        model.wf(),
        x.slot_count() == model.facelet_count(),
        x.colors() == model.num_colors,
        0 <= s < x.slot_count(),
        0 <= c < x.colors(),
        0 <= p <= x.pixel_count(s),
    ensures
        x.samples_upto(img, model, s, c, p) == y.samples_upto(img, model, s, c, p),
    decreases p,
{
    if p > 0 {
        lemma_samples_upto_eq(x, y, img, model, s, c, p - 1);
        assert(slot_pixel_wf(
            &x.pixels_by_sticker@[s]@[p - 1],
            x.num_colors as int,
            x.image_size as int,
        ));
        assert(x.store_at(s, p - 1, c) == y.store_at(s, p - 1, c));
        assert(x.idx_at(s, p - 1) == y.idx_at(s, p - 1));
        assert(model.facelet_colors@[s] < model.num_colors);
        assert(x.wb_refs(model.facelet_colors@[s] as int) == y.wb_refs(
            model.facelet_colors@[s] as int,
        )) by {
            assert(x.white_balance_by_face@[model.facelet_colors@[s] as int]@
                == y.white_balance_by_face@[model.facelet_colors@[s] as int]@);
        }
        assert(x.query_of(img, model, s, p - 1) == y.query_of(img, model, s, p - 1));
        assert(x.sample_val(img, model, s, p - 1, c) == y.sample_val(img, model, s, p - 1, c));
    }
}

proof fn lemma_totals_eq(
    x: Inference,
    y: Inference,
    img: Seq<Rgb>,
    model: &GroupModel,
    s: int,
    cc: int,
)
    requires
        eq_state(x, y),
        x.wf(),
        y.wf(),
        model.wf(),
        x.slot_count() == model.facelet_count(),
        x.colors() == model.num_colors,
        0 <= s < x.slot_count(),
        0 <= cc <= x.colors(),
    ensures
        x.total_upto(img, model, s, cc) == y.total_upto(img, model, s, cc),
        x.data_upto(img, model, s, cc) == y.data_upto(img, model, s, cc),
    decreases cc,
{
    if cc > 0 {
        lemma_totals_eq(x, y, img, model, s, cc - 1);
        lemma_samples_upto_eq(x, y, img, model, s, cc - 1, x.pixel_count(s));
        assert(x.pixel_count(s) == y.pixel_count(s));
        assert(x.samples_of(img, model, s, cc - 1) == y.samples_of(img, model, s, cc - 1));
        assert(x.rep_of(img, model, s, cc - 1) == y.rep_of(img, model, s, cc - 1));
    }
}

/// Law: engines with the same observable state answer every inference
/// query identically. Together with `persist_round_trip`'s `eq_state` and
/// `infer`'s exact contract, a deserialized engine's confidence vectors
/// are bit-identical to the serialized engine's.
pub proof fn lemma_eq_state_same_inference(
    x: Inference,
    y: Inference,
    img: Seq<Rgb>,
    model: &GroupModel,
    s: int,
    c: int,
)
    requires
        eq_state(x, y),
        x.wf(),
        y.wf(),
        model.wf(),
        x.slot_count() == model.facelet_count(),
        x.colors() == model.num_colors,
        0 <= s < x.slot_count(),
        0 <= c < x.colors(),
    ensures
        x.conf_of(img, model, s, c) == y.conf_of(img, model, s, c),
{
    lemma_totals_eq(x, y, img, model, s, x.colors());
    lemma_samples_upto_eq(x, y, img, model, s, c, x.pixel_count(s));
    assert(x.pixel_count(s) == y.pixel_count(s));
    assert(x.samples_of(img, model, s, c) == y.samples_of(img, model, s, c));
    assert(x.rep_of(img, model, s, c) == y.rep_of(img, model, s, c));
    assert(x.slot_count() == y.slot_count() && x.colors() == y.colors());
}

/// Round trip through the persisted form: writes the engine out and reads
/// it back. The result always comes back and has exactly the same
/// observable state as the engine that was written.
pub fn persist_round_trip(inf: &Inference) -> (r: Inference)
    requires
        inf.wf(),
        inf.decode_sized(),
    ensures
        r.wf(),
        eq_state(*inf, r),
        r.slot_count() == inf.slot_count(),
        r.colors() == inf.colors(),
        r.size() == inf.size(),
{
    let w = to_words(inf);
    match from_words(&w) {
        Some(y) => {
            proof {
                lemma_persisted_form_determines_state(*inf, y);
            }
            y
        },
        None => {
            // Dead branch: the blob is the persisted form of `inf` itself,
            // so the decoder owes a result.
            proof {
                assert(enc_inf(*inf) == w@ && inf.wf() && inf.decode_sized());
                assert(false);
            }
            let fallback = Inference {
                pixels_by_sticker: Vec::new(),
                white_balance_by_face: Vec::new(),
                num_colors: 1,
                image_size: 0,
            };
            fallback
        },
    }
}

} // verus!
