use qvis::rng::SeededRng;
use qvis::select::quickselect;
use rand::Rng;

fn verify(rng: &mut SeededRng, pos: usize, slice: &[u64]) {
    let mut slice: Vec<(u64, usize)> = slice.iter().enumerate().map(|(a, b)| (*b, a)).collect();

    quickselect(&mut slice, pos, rng);

    for i in 0..pos {
        assert!(
            slice[i].0 >= slice[pos].0,
            "Pos: {pos}, Index: {i} - {slice:?}"
        );
    }

    for i in pos + 1..slice.len() {
        assert!(
            slice[i].0 <= slice[pos].0,
            "Pos: {pos}, Index: {i} - {slice:?}"
        );
    }

    let v = slice[pos];

    slice.sort_by(|a, b| b.0.cmp(&a.0));

    assert_eq!(slice[pos].0, v.0);
}

#[test]
fn test_quickselect() {
    let mut rng = SeededRng::new(0x5eed);

    verify(&mut rng, 2, &[5, 4, 3, 2, 1]);
    verify(&mut rng, 2, &[1, 2, 3, 4, 5]);
    verify(&mut rng, 3, &[1, 2, 1, 4, 3]);

    let mut data_rng = rand::rng();
    for i in 0..100 {
        let pos = data_rng.random_range(0..i + 1);
        let data: Vec<u64> = (0..i + 1).map(|_| data_rng.random()).collect();
        verify(&mut rng, pos, &data);
    }
}
