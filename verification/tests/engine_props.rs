use qvis::inference::{from_words, persist_round_trip, to_words};
use qvis::matcher::Matcher;
use qvis::model::{GroupModel, Perm};
use qvis::{CVProcessor, Pixel, CHAN_ONE, CONF_ONE};

/// A small four-color puzzle: one orbit of two pieces with two stickers
/// each, four facelets with four distinct colors, two pixels per facelet
/// plus two reference pixels per face color.
fn tiny_model() -> GroupModel {
    GroupModel {
        facelet_colors: vec![0, 1, 2, 3],
        num_colors: 4,
        orbits: vec![vec![vec![0, 2], vec![1, 3]]],
    }
}

fn tiny_assignment() -> Vec<Pixel> {
    let mut assignment = Vec::new();
    for f in 0..4 {
        assignment.push(Pixel::Sticker(f));
        assignment.push(Pixel::Sticker(f));
    }
    for c in 0..4 {
        assignment.push(Pixel::WhiteBalance(c));
        assignment.push(Pixel::WhiteBalance(c));
    }
    assignment
}

fn natural(color: usize) -> (u64, u64, u64) {
    let one = CHAN_ONE;
    match color {
        0 => (one, one / 5, one / 5),
        1 => (one / 5, one, one / 5),
        2 => (one / 5, one / 5, one),
        _ => (one * 9 / 10, one * 9 / 10, one / 5),
    }
}

/// The image of the puzzle in the given state under neutral lighting:
/// facelet `f` shows the color of the facelet whose sticker sits there.
fn tiny_image(map: &[usize; 4]) -> Vec<(u64, u64, u64)> {
    let mut img = Vec::new();
    for f in 0..4 {
        let v = natural(map[f]);
        img.push(v);
        img.push(v);
    }
    for _ in 0..8 {
        img.push((CHAN_ONE, CHAN_ONE, CHAN_ONE));
    }
    img
}

const IDENTITY: [usize; 4] = [0, 1, 2, 3];
const SWAPPED: [usize; 4] = [1, 0, 3, 2];

fn calibrated_processor() -> CVProcessor {
    let assignment = tiny_assignment();
    let mut processor = CVProcessor::new(tiny_model(), assignment.len(), &assignment);
    let identity = Perm { map: IDENTITY.to_vec() };
    let swapped = Perm { map: SWAPPED.to_vec() };
    for _ in 0..6 {
        processor.calibrate(&tiny_image(&IDENTITY), &identity);
        processor.calibrate(&tiny_image(&SWAPPED), &swapped);
    }
    processor
}

/// Calling inference twice on the same image with the same seed, without an
/// intervening calibration, yields identical confidence vectors.
#[test]
fn infer_is_idempotent() {
    let processor = calibrated_processor();
    let img = tiny_image(&IDENTITY);
    let first = processor.inference.infer(&img, processor.matcher.model(), 42);
    let second = processor.inference.infer(&img, processor.matcher.model(), 42);
    assert_eq!(first, second);
    for row in &first {
        for &v in row {
            assert!(v <= CONF_ONE);
        }
    }
}

/// Serializing and deserializing a calibrated engine reconstructs one whose
/// inference output is bit-identical.
#[test]
fn round_trip_preserves_inference() {
    let processor = calibrated_processor();
    let words = to_words(&processor.inference);
    let rebuilt = from_words(&words).expect("a serialized engine should deserialize");
    let img = tiny_image(&SWAPPED);
    let before = processor.inference.infer(&img, processor.matcher.model(), 7);
    let after = rebuilt.infer(&img, processor.matcher.model(), 7);
    assert_eq!(before, after);
    assert_eq!(to_words(&rebuilt), words);

    let restored = persist_round_trip(&processor.inference);
    let again = restored.infer(&img, processor.matcher.model(), 7);
    assert_eq!(before, again);
}

/// Persisting the engine blob together with the puzzle-model reference and
/// rebuilding a processor from them — the matcher rebuilt fresh from the
/// re-resolved model — leaves recognition unchanged.
#[test]
fn processor_round_trip() {
    let processor = calibrated_processor();
    let words = to_words(&processor.inference);
    let model_ref = processor.matcher.model();
    let restored_model = GroupModel {
        facelet_colors: model_ref.facelet_colors.clone(),
        num_colors: model_ref.num_colors,
        orbits: model_ref.orbits.clone(),
    };
    let engine = from_words(&words).expect("the engine blob reads back");
    let restored = CVProcessor {
        image_size: processor.image_size,
        matcher: Matcher::new(restored_model),
        inference: engine,
    };
    let img = tiny_image(&IDENTITY);
    assert_eq!(
        processor.process_image(&img, 9),
        restored.process_image(&img, 9)
    );
}

/// A truncated or corrupted blob is rejected rather than misread.
#[test]
fn malformed_blob_is_rejected() {
    let processor = calibrated_processor();
    let mut words = to_words(&processor.inference);
    words.pop();
    assert!(from_words(&words).is_none());
    assert!(from_words(&vec![0u64]).is_none());
}

/// The tiny puzzle is recognized end to end after calibration.
#[test]
fn tiny_puzzle_recognized() {
    let processor = calibrated_processor();
    let (state, conf) = processor.process_image(&tiny_image(&IDENTITY), 3);
    assert!(conf <= CONF_ONE);
    assert_eq!(state.map, IDENTITY.to_vec());
    let (state2, _) = processor.process_image(&tiny_image(&SWAPPED), 3);
    assert_eq!(state2.map, SWAPPED.to_vec());
}
