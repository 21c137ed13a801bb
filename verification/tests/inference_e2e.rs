use qvis::model::{GroupModel, Perm};
use qvis::{CVProcessor, Pixel, CHAN_ONE, CONF_ONE};
use rand::rngs::SmallRng;
use rand::{Rng, SeedableRng};

/// Face order: up, left, front, right, back, down. Facelet `face * 8 + i`
/// holds face `face`'s sticker `i`; stickers 0..4 sit on corners, 4..8 on
/// edges. Color id equals face id.
fn cube_model() -> GroupModel {
    let corner_faces: [[usize; 3]; 8] = [
        [0, 1, 2],
        [0, 2, 3],
        [0, 3, 4],
        [0, 4, 1],
        [5, 2, 1],
        [5, 3, 2],
        [5, 4, 3],
        [5, 1, 4],
    ];
    let edge_faces: [[usize; 2]; 12] = [
        [0, 2],
        [0, 3],
        [0, 4],
        [0, 1],
        [5, 2],
        [5, 3],
        [5, 4],
        [5, 1],
        [2, 1],
        [2, 3],
        [4, 3],
        [4, 1],
    ];
    let mut corner_used = [0usize; 6];
    let mut corners: Vec<Vec<usize>> = Vec::new();
    for cf in corner_faces {
        let piece: Vec<usize> = cf
            .iter()
            .map(|&f| {
                let id = f * 8 + corner_used[f];
                corner_used[f] += 1;
                id
            })
            .collect();
        corners.push(piece);
    }
    let mut edge_used = [0usize; 6];
    let mut edges: Vec<Vec<usize>> = Vec::new();
    for ef in edge_faces {
        let piece: Vec<usize> = ef
            .iter()
            .map(|&f| {
                let id = f * 8 + 4 + edge_used[f];
                edge_used[f] += 1;
                id
            })
            .collect();
        edges.push(piece);
    }
    let facelet_colors: Vec<usize> = (0..48).map(|f| f / 8).collect();
    GroupModel {
        facelet_colors,
        num_colors: 6,
        orbits: vec![corners, edges],
    }
}

/// A uniformly random placement of every piece of every orbit, with a random
/// orientation each, composed exactly as the solver composes placements.
fn random_state<R: Rng + ?Sized>(model: &GroupModel, rng: &mut R) -> Perm {
    let mut map: Vec<usize> = (0..model.facelet_colors.len()).collect();
    for orbit in &model.orbits {
        let pc = orbit.len();
        let slen = orbit[0].len();
        let mut placement: Vec<usize> = (0..pc).collect();
        for i in (1..pc).rev() {
            let j = rng.random_range(0..i + 1);
            placement.swap(i, j);
        }
        for q in 0..pc {
            let p = placement[q];
            let o = rng.random_range(0..slen);
            for t in 0..slen {
                map[orbit[q][(t + o) % slen]] = orbit[p][t];
            }
        }
    }
    Perm { map }
}

// Natural colors by color id: white, orange, green, red, blue, yellow.
const NATURAL_COLORS: [(f64, f64, f64); 6] = [
    (1., 1., 1.),
    (1., 0.6, 0.2),
    (0.3, 1., 0.5),
    (1., 0.2, 0.2),
    (0.2, 0.5, 1.),
    (0.8, 0.8, 0.2),
];

fn simulate_picture<R: Rng + ?Sized>(
    perm: &Perm,
    model: &GroupModel,
    shadowful_noise: f64,
    colorful_noise: f64,
    rng: &mut R,
    out: &mut [(f64, f64, f64)],
) {
    assert_eq!(out.len(), (48 + 6) * 20);

    for face in 0..6 {
        // Simulate random lighting on this face to test the white balance.
        let white = (
            rng.random_range(0.2..1.2),
            rng.random_range(0.2..1.2),
            rng.random_range(0.2..1.2),
        );

        for spot in 0..8 {
            let idx = spot + face * 8;

            let is = perm.map[idx];
            let mut color = NATURAL_COLORS[model.facelet_colors[is]];
            color.0 *= white.0;
            color.1 *= white.1;
            color.2 *= white.2;

            out[idx * 20..(idx + 1) * 20].fill(color);
        }

        out[(48 + face) * 20..(48 + face + 1) * 20].fill(white);
    }

    for (r, g, b) in out.iter_mut() {
        // Random noise simulating differences in shadowing.
        let noise = rng.random_range(((1. + shadowful_noise).recip())..(1. + shadowful_noise));
        *r *= noise;
        *g *= noise;
        *b *= noise;
    }

    for v in out.iter_mut().flat_map(|(r, g, b)| [r, g, b]) {
        // Random camera noise, clamped to at most one to simulate
        // overexposure.
        *v *= rng.random_range(((1. + colorful_noise).recip())..(1. + colorful_noise));
        *v = v.min(1.);
    }
}

fn to_fixed(img: &[(f64, f64, f64)]) -> Vec<(u64, u64, u64)> {
    img.iter()
        .map(|&(r, g, b)| {
            let fx = |v: f64| ((v.max(0.).min(1.)) * CHAN_ONE as f64) as u64;
            (fx(r), fx(g), fx(b))
        })
        .collect()
}

#[test]
fn test_inference() {
    let mut assignment = Vec::new();

    for i in 0..48 {
        for _ in 0..20 {
            assignment.push(Pixel::Sticker(i));
        }
    }

    for color in 0..6 {
        for _ in 0..20 {
            assignment.push(Pixel::WhiteBalance(color));
        }
    }

    let model = cube_model();
    let mut processor = CVProcessor::new(model, (48 + 6) * 20, &assignment);

    let mut rng = SmallRng::from_seed(*b"Buying black on the black market");

    let mut img = [(0., 0., 0.); (48 + 6) * 20];

    for _ in 0..30 {
        let perm = random_state(processor.matcher.model(), &mut rng);
        simulate_picture(&perm, processor.matcher.model(), 0.2, 0.1, &mut rng, &mut img);
        let fixed = to_fixed(&img);
        processor.calibrate(&fixed, &perm);
    }

    for trial in 0..100u64 {
        let perm = random_state(processor.matcher.model(), &mut rng);
        simulate_picture(&perm, processor.matcher.model(), 0.2, 0.1, &mut rng, &mut img);
        let fixed = to_fixed(&img);
        let (perm_inferred, conf) = processor.process_image(&fixed, trial + 1);
        assert!(conf <= CONF_ONE, "{conf}");
        assert_eq!(perm_inferred, perm);
    }
}
