use qvis::matching::maximum_matching;
use qvis::model::{GroupModel, Perm};
use qvis::{CVProcessor, Pixel, CHAN_ONE, CONF_ONE};

/// An empty cost matrix has the trivial empty matching: success, not
/// infeasibility.
#[test]
fn empty_matrix_trivial_matching() {
    let costs: Vec<Vec<Option<i64>>> = Vec::new();
    assert_eq!(maximum_matching(&costs), Some(Vec::new()));
}

/// A single-slot, single-color puzzle calibrated on the very image it is
/// asked about: the one confidence is exactly `CONF_ONE`, since the sole
/// color's representative density normalizes against itself.
#[test]
fn single_color_certainty() {
    let model = GroupModel {
        facelet_colors: vec![0],
        num_colors: 1,
        orbits: vec![vec![vec![0]]],
    };
    let assignment = vec![Pixel::Sticker(0), Pixel::WhiteBalance(0)];
    let mut processor = CVProcessor::new(model, 2, &assignment);
    let img = vec![
        (CHAN_ONE / 2, CHAN_ONE / 3, CHAN_ONE / 4),
        (CHAN_ONE, CHAN_ONE, CHAN_ONE),
    ];
    let identity = Perm { map: vec![0] };
    processor.calibrate(&img, &identity);
    let conf = processor
        .inference
        .infer(&img, processor.matcher.model(), 1);
    assert_eq!(conf, vec![vec![CONF_ONE]]);
}

/// A color that was never observed for a slot gets the fixed no-data
/// constant `CONF_ONE / (colors * slots)`, not zero.
#[test]
fn no_data_constant_fills_unseen_colors() {
    let model = GroupModel {
        facelet_colors: vec![0, 1],
        num_colors: 2,
        orbits: vec![vec![vec![0]], vec![vec![1]]],
    };
    let assignment = vec![
        Pixel::Sticker(0),
        Pixel::Sticker(1),
        Pixel::WhiteBalance(0),
        Pixel::WhiteBalance(1),
    ];
    let mut processor = CVProcessor::new(model, 4, &assignment);
    let img = vec![
        (CHAN_ONE, CHAN_ONE / 5, CHAN_ONE / 5),
        (CHAN_ONE / 5, CHAN_ONE, CHAN_ONE / 5),
        (CHAN_ONE, CHAN_ONE, CHAN_ONE),
        (CHAN_ONE, CHAN_ONE, CHAN_ONE),
    ];
    // Only the identity state is ever shown, so slot 0 never observes
    // color 1 and slot 1 never observes color 0.
    let identity = Perm { map: vec![0, 1] };
    processor.calibrate(&img, &identity);
    let conf = processor
        .inference
        .infer(&img, processor.matcher.model(), 5);
    let no_data = CONF_ONE / (2 * 2);
    assert_eq!(conf[0][1], no_data);
    assert_eq!(conf[1][0], no_data);
    assert!(conf[0][0] <= CONF_ONE);
    assert!(conf[1][1] <= CONF_ONE);
}

/// A face without any reference pixels falls back to the neutral
/// correction instead of failing; recognition still works.
#[test]
fn missing_white_balance_is_neutral() {
    let model = GroupModel {
        facelet_colors: vec![0, 1],
        num_colors: 2,
        orbits: vec![vec![vec![0]], vec![vec![1]]],
    };
    // No WhiteBalance pixels at all.
    let assignment = vec![Pixel::Sticker(0), Pixel::Sticker(1), Pixel::Unassigned];
    let mut processor = CVProcessor::new(model, 3, &assignment);
    let img = vec![
        (CHAN_ONE, CHAN_ONE / 5, CHAN_ONE / 5),
        (CHAN_ONE / 5, CHAN_ONE, CHAN_ONE / 5),
        (0, 0, 0),
    ];
    let identity = Perm { map: vec![0, 1] };
    for _ in 0..3 {
        processor.calibrate(&img, &identity);
    }
    let (state, conf) = processor.process_image(&img, 2);
    assert_eq!(state.map, vec![0, 1]);
    assert!(conf <= CONF_ONE);
}
