//! Vision core for a mechanical permutation puzzle: infers the puzzle's state
//! from per-pixel color observations and resolves it into a single permutation
//! with a confidence score.
//!
//! All color and confidence arithmetic is fixed-point over integers: a channel
//! value of `CHAN_ONE` stands for 1.0, a confidence of `CONF_ONE` stands for
//! probability 1.

use vstd::prelude::*;

pub mod inference;
pub mod model;
pub mod rng;
pub mod matcher;
pub mod matching;
pub mod select;
pub mod store;

use crate::inference::{image_ok, Inference, Rgb};
use crate::matcher::Matcher;
use crate::model::{GroupModel, Perm};

verus! {

/// Fixed-point unit for a color channel: this value stands for 1.0.
pub const CHAN_ONE: u64 = 1_000_000;

/// Fixed-point unit for a confidence: this value stands for 1.0.
pub const CONF_ONE: u64 = 1_000_000_000;

/// Role of one image pixel, fixed at construction.
#[derive(Debug, Clone, PartialEq, Eq)]
pub enum Pixel {
    /// The pixel takes no part in the vision pipeline.
    Unassigned,
    /// The pixel is lighting reference for the face of the given color id.
    WhiteBalance(usize),
    /// The pixel belongs to the sticker at the given slot.
    Sticker(usize),
}

/// Processes images of the puzzle: calibration frames with a known state
/// grow the color model, and inference turns a frame into the most likely
/// state with a confidence in `[0, CONF_ONE]`.
#[derive(Debug, Clone)]
pub struct CVProcessor {
    pub image_size: usize,
    pub matcher: Matcher,
    pub inference: Inference,
}

impl CVProcessor {
    pub open spec fn wf(&self) -> bool {
        &&& self.matcher.wf()
        &&& self.inference.wf()
        &&& self.inference.slot_count() == self.matcher.model_spec().facelet_count()
        &&& self.inference.colors() == self.matcher.model_spec().num_colors
        &&& self.inference.size() == self.image_size
    }

    /// Builds a processor for the given puzzle over images of `image_size`
    /// pixels, with the fixed role of each pixel.
    pub fn new(model: GroupModel, image_size: usize, assignment: &Vec<Pixel>) -> (r: CVProcessor)
        requires
            model.wf(),
            assignment@.len() == image_size,
            image_size <= 0x1000_0000,
            forall|t: int| 0 <= t < assignment@.len() ==> match #[trigger] assignment@[t] {
                Pixel::Unassigned => true,
                Pixel::WhiteBalance(f) => f < model.num_colors,
                Pixel::Sticker(s) => s < model.facelet_colors@.len(),
            },
        ensures
            r.wf(),
            r.image_size == image_size,
            r.matcher.model_spec() == &model,
            r.inference.slot_count() == model.facelet_colors@.len(),
            r.inference.colors() == model.num_colors,
            r.inference.size() == image_size,
            forall|s: int, p: int, c: int|
                0 <= s < r.inference.slot_count() && 0 <= p < r.inference.pixel_count(s) && 0
                    <= c < r.inference.colors() ==> (#[trigger] r.inference.store_at(
                    s,
                    p,
                    c,
                )).len() == 0,
            forall|s: int|
                0 <= s < r.inference.slot_count() ==> r.inference.slot_indices(s)
                    == crate::inference::sticker_indices(assignment@, s),
            forall|f: int|
                0 <= f < r.inference.colors() ==> r.inference.wb_refs(f)
                    == crate::inference::wb_indices(assignment@, f),
    {
        let facelet_count = model.facelet_colors.len();
        let num_colors = model.num_colors;
        let inf = Inference::new(assignment, facelet_count, num_colors);
        CVProcessor { image_size, matcher: Matcher::new(model), inference: inf }
    }

    /// Calibrates the color model with an image of the puzzle in a known
    /// state. The only mutator: exactly one white-balance-corrected point
    /// is appended to each slot pixel's store for the color the state puts
    /// at that slot; every other store and all structure stay as they were.
    pub fn calibrate(&mut self, image: &Vec<Rgb>, state: &Perm)
        requires
            old(self).wf(),
            image@.len() == old(self).image_size,
            image_ok(image@),
            state.valid(old(self).matcher.model_spec().facelet_count()),
        ensures
            final(self).wf(),
            final(self).image_size == old(self).image_size,
            final(self).matcher == old(self).matcher,
            final(self).inference.slot_count() == old(self).inference.slot_count(),
            final(self).inference.colors() == old(self).inference.colors(),
            final(self).inference.size() == old(self).inference.size(),
            forall|f: int|
                0 <= f < final(self).inference.colors() ==> final(self).inference.wb_refs(f)
                    == old(self).inference.wb_refs(f),
            forall|s2: int|
                0 <= s2 < final(self).inference.slot_count()
                    ==> final(self).inference.pixel_count(s2)
                    == old(self).inference.pixel_count(s2),
            forall|s2: int, p2: int|
                0 <= s2 < final(self).inference.slot_count() && 0 <= p2
                    < final(self).inference.pixel_count(s2)
                    ==> final(self).inference.idx_at(s2, p2)
                    == old(self).inference.idx_at(s2, p2),
            forall|s2: int, p2: int, c2: int|
                0 <= s2 < final(self).inference.slot_count() && 0 <= p2
                    < final(self).inference.pixel_count(s2) && 0 <= c2
                    < final(self).inference.colors() ==> (
                #[trigger] final(self).inference.store_at(s2, p2, c2)) == if c2
                    == old(self).matcher.model_spec().facelet_colors@[state.map@[s2] as int] {
                    old(self).inference.store_at(s2, p2, c2).push(
                        crate::inference::corrected_pt(
                            image@[old(self).inference.idx_at(s2, p2)],
                            crate::inference::wb_of(
                                old(self).inference.wb_refs(
                                    old(self).matcher.model_spec().facelet_colors@[s2] as int,
                                ),
                                image@,
                            ),
                        ),
                    )
                } else {
                    old(self).inference.store_at(s2, p2, c2)
                },
    {
        let model = self.matcher.model();
        self.inference.calibrate(image, state, model);
    }

    /// Processes an image: infers the per-slot confidence distributions —
    /// each pinned to `Inference::conf_of` of the calibrated state and the
    /// image — and resolves them into the most likely state. The returned
    /// mapping is a bijection on the facelets; the confidence lies in
    /// `[0, CONF_ONE]` and equals the resolver's pinned mean — the best
    /// reachable per-orbit placement totals over the covered stickers —
    /// computed on exactly those inferred distributions.
    pub fn process_image(&self, image: &Vec<Rgb>, seed: u64) -> (r: (Perm, u64))
        requires
            self.wf(),
            image@.len() == self.image_size,
            image_ok(image@),
        ensures
            r.0.valid(self.matcher.model_spec().facelet_count()),
            r.1 <= CONF_ONE,
            exists|cv: Seq<Vec<u64>>|
                #[trigger] crate::matcher::confidences_ok(
                    cv,
                    self.matcher.model_spec().facelet_count(),
                    self.matcher.model_spec().num_colors as int,
                ) && (forall|s: int, c2: int|
                    0 <= s < cv.len() && 0 <= c2 < cv[s]@.len() ==> (#[trigger] cv[s]@[c2])
                        == self.inference.conf_of(image@, self.matcher.model_spec(), s, c2))
                    && r.1 == if crate::matcher::covered_upto(
                    self.matcher.model_spec(),
                    self.matcher.model_spec().orbits@.len() as int,
                ) == 0 {
                    CONF_ONE as int
                } else {
                    crate::matcher::opt_total_upto(
                        self.matcher.model_spec(),
                        cv,
                        self.matcher.model_spec().orbits@.len() as int,
                    ) / crate::matcher::covered_upto(
                        self.matcher.model_spec(),
                        self.matcher.model_spec().orbits@.len() as int,
                    )
                },
    {
        let model = self.matcher.model();
        let conf = self.inference.infer(image, model, seed);
        let r = self.matcher.most_likely(&conf);
        proof {
            assert(crate::matcher::confidences_ok(
                conf@,
                self.matcher.model_spec().facelet_count(),
                self.matcher.model_spec().num_colors as int,
            ));
        }
        r
    }

    /// Which pixel indices are assigned to any role, either a sticker or
    /// white balance, for overlay and debugging by external tooling. An
    /// entry is true exactly when some slot pixel or some face's lighting
    /// reference sits at that index.
    pub fn pixel_assignment_locations(&self) -> (r: Vec<bool>)
        requires
            self.wf(),
        ensures
            r@.len() == self.image_size,
            forall|t: int|
                0 <= t < r@.len() ==> ((#[trigger] r@[t])
                    <==> self.inference.is_assigned_location(t)),
    {
        self.inference.assignment_locations()
    }
}

} // verus!
