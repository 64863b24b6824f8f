use pbr::rng::Rng;
use pbr::sampler::shuffle;

#[test]
fn default_stream_outputs() {
    let mut rng = Rng::new();
    assert_eq!(rng.uniform_u32(), 355248013);
    assert_eq!(rng.uniform_u32(), 41705475);
    assert_eq!(rng.uniform_u32(), 3406281715);
    assert_eq!(rng.uniform_u32(), 4186697710);
}

#[test]
fn set_sequence_selects_a_stream() {
    let mut rng = Rng::new();
    rng.set_sequence(42);
    assert_eq!(rng.uniform_u32(), 589627368);
    assert_eq!(rng.uniform_u32(), 2336806640);
    assert_eq!(rng.uniform_u32(), 3609466837);
}

#[test]
fn same_state_same_sequence() {
    let mut a = Rng::new();
    a.set_sequence(7);
    let mut b = a;
    for _ in 0..100 {
        assert_eq!(a.uniform_u32(), b.uniform_u32());
    }
}

#[test]
fn bounded_draws_stay_below_bound() {
    let mut rng = Rng::new();
    assert_eq!(rng.uniform_u32_bounded(10), 3);
    assert_eq!(rng.uniform_u32_bounded(7), 0);
    assert_eq!(rng.uniform_u32_bounded(16), 3);
    assert_eq!(rng.uniform_u32_bounded(1), 0);
    for b in 1..200u32 {
        assert!(rng.uniform_u32_bounded(b) < b);
    }
}

#[test]
fn shuffle_permutes_blocks() {
    let mut rng = Rng::new();
    let mut samples: Vec<u32> = (0..20).collect();
    // 6 blocks of 3; the last two samples are outside the blocks.
    shuffle(&mut samples[..], 6, 3, &mut rng);
    assert_eq!(samples[18], 18);
    assert_eq!(samples[19], 19);
    for block in samples[..18].chunks(3) {
        assert_eq!(block[0] % 3, 0);
        assert_eq!(block[1], block[0] + 1);
        assert_eq!(block[2], block[0] + 2);
    }
    let mut sorted = samples.clone();
    sorted.sort();
    assert_eq!(sorted, (0..20).collect::<Vec<u32>>());
}

#[test]
fn shuffle_of_nothing_changes_nothing() {
    let mut rng = Rng::new();
    let mut samples = vec![5, 6, 7];
    shuffle(&mut samples[..], 0, 1, &mut rng);
    assert_eq!(samples, vec![5, 6, 7]);
}

#[test]
fn default_generator_is_the_new_one() {
    let mut a = Rng::default();
    let mut b = Rng::new();
    for _ in 0..4 {
        assert_eq!(a.uniform_u32(), b.uniform_u32());
    }
}
