use pbr::rng::Rng;
use pbr::sampler::{
    gray_code_sample, gray_code_sample_2d, shuffle, shuffle_at, sobol_2d, van_der_corput, ZeroTwoSequence, CSOBOL,
    CVAN_DER_CORPUT,
};
use pbr::vector::Point2;

#[test]
fn gray_code_flips_one_column_per_step() {
    let mut p = [7u32; 9];
    gray_code_sample(&CVAN_DER_CORPUT, 8, 0, &mut p);
    // Points 0..8 of the base-2 van der Corput sequence in Gray-code order:
    // bit-reversed Gray codes 0, 1, 3, 2, 6, 7, 5, 4.
    let expected: Vec<u32> = [0u32, 1, 3, 2, 6, 7, 5, 4].iter().map(|g| g.reverse_bits()).collect();
    assert_eq!(&p[..8], &expected[..]);
    assert_eq!(p[8], 7);
    let mut q = [0u32; 4];
    gray_code_sample(&CVAN_DER_CORPUT, 4, 0xdead_beef, &mut q);
    for i in 0..4 {
        assert_eq!(q[i], p[i] ^ 0xdead_beef);
    }
}

#[test]
fn sobol_gray_code_uses_both_matrices() {
    let mut p = [Point2::new(1u32, 1u32); 4];
    gray_code_sample_2d(&CSOBOL[0], &CSOBOL[1], 4, Point2::new(0, -1), &mut p);
    assert_eq!(p[0], Point2::new(0, 0xffff_ffff));
    assert_eq!(p[1], Point2::new(0x8000_0000, !0x8000_0000u32));
    assert_eq!(p[2], Point2::new(0xc000_0000, !0x4000_0000u32));
    assert_eq!(p[3], Point2::new(0x4000_0000, 0x3fff_ffff));
}

#[test]
fn shuffle_at_leaves_other_blocks_alone() {
    let mut samples: Vec<u32> = (0..12).collect();
    let mut rng = Rng::new();
    shuffle_at(&mut samples[..], 4, 4, 1, &mut rng);
    assert_eq!(&samples[..4], &[0, 1, 2, 3]);
    assert_eq!(&samples[8..], &[8, 9, 10, 11]);
    let mut middle = samples[4..8].to_vec();
    middle.sort();
    assert_eq!(middle, vec![4, 5, 6, 7]);
}

/// Each stratum of `n_per` samples holds, once sorted, a stratum of the
/// unshuffled sequence.
fn assert_strata<T: Ord + Copy + std::fmt::Debug>(shuffled: &[T], plain: &[T], n_per: usize) {
    let mut seen = vec![false; plain.len() / n_per];
    for block in shuffled.chunks(n_per) {
        let mut b = block.to_vec();
        b.sort();
        let k = (0..seen.len())
            .find(|&k| {
                let mut p = plain[k * n_per..(k + 1) * n_per].to_vec();
                p.sort();
                !seen[k] && p == b
            })
            .expect("block is a stratum");
        seen[k] = true;
    }
}

#[test]
fn van_der_corput_points_are_stratified() {
    let mut rng = Rng::new();
    let scramble = rng.clone().uniform_u32();
    let mut samples = vec![0u32; 4 * 8 + 3];
    van_der_corput(4, 8, &mut samples[..], &mut rng);
    let mut plain = vec![0u32; 32];
    gray_code_sample(&CVAN_DER_CORPUT, 32, scramble, &mut plain);
    assert_strata(&samples[..32], &plain, 4);
    assert_eq!(&samples[32..], &[0, 0, 0]);
    // With one sample per pixel sample the top bits take every value once.
    let mut one = vec![0u32; 16];
    van_der_corput(1, 16, &mut one[..], &mut rng);
    let mut tops: Vec<u32> = one.iter().map(|v| (v ^ one[0]) >> 28).collect();
    tops.sort();
    tops.dedup();
    assert_eq!(tops.len(), 16);
}

#[test]
fn sobol_points_are_stratified() {
    let mut rng = Rng::new();
    let mut copy = rng.clone();
    let sx = copy.uniform_u32();
    let sy = copy.uniform_u32();
    let mut samples = vec![Point2::new(0u32, 0u32); 16];
    sobol_2d(2, 8, &mut samples[..], &mut rng);
    let mut plain = vec![Point2::new(0u32, 0u32); 16];
    gray_code_sample_2d(&CSOBOL[0], &CSOBOL[1], 16, Point2::new(sx as i32, sy as i32), &mut plain);
    let key = |p: &Point2<u32>| (p.x, p.y);
    let s: Vec<(u32, u32)> = samples.iter().map(key).collect();
    let p: Vec<(u32, u32)> = plain.iter().map(key).collect();
    assert_strata(&s, &p, 2);
}

#[test]
fn sampler_rounds_its_sample_count_up() {
    let s = ZeroTwoSequence::new(5, 2);
    assert_eq!(s.spp(), 8);
    assert_eq!(ZeroTwoSequence::new(0, 0).spp(), 1);
    assert_eq!(ZeroTwoSequence::new(16, 0).spp(), 16);
    assert_eq!(s.round_count(9), 16);
    assert_eq!(s.round_count(1), 1);
    assert_eq!(s.current_sample_number(), 0);
}

#[test]
fn a_pixel_has_spp_samples_each_from_its_own_stratum() {
    let mut s = ZeroTwoSequence::new(8, 1);
    s.request_1d_array(2);
    s.request_2d_array(3);
    s.start_pixel(Point2::new(3, 4));
    let mut firsts = Vec::new();
    let mut count = 1;
    loop {
        let v = s.get_1d();
        firsts.push(v);
        let _p = s.get_2d();
        let a = s.get_1d_array(2).expect("requested array");
        assert_eq!(a.len(), 2 * (8 - s.current_sample_number()));
        let b = s.get_2d_array(3).expect("requested array");
        assert_eq!(b.len(), 3 * (8 - s.current_sample_number()));
        assert!(s.get_1d_array(2).is_none());
        assert!(s.get_2d_array(3).is_none());
        if !s.start_next_sample() {
            break;
        }
        count += 1;
    }
    assert_eq!(count, 8);
    assert_eq!(s.current_sample_number(), 8);
    // The 8 samples of the dimension fall into the 8 strata of [0, 1).
    let mut tops: Vec<u32> = firsts.iter().map(|v| (v ^ firsts[0]) >> 29).collect();
    tops.sort();
    assert_eq!(tops, (0..8).collect::<Vec<u32>>());
}

#[test]
fn dimensions_past_the_sampled_ones_draw_from_the_generator() {
    let mut s = ZeroTwoSequence::new(4, 0);
    s.start_pixel(Point2::new(0, 0));
    let mut rng = Rng::new();
    // start_pixel draws nothing when there is nothing to lay out.
    assert_eq!(s.get_1d(), rng.uniform_u32());
    let y = rng.uniform_u32();
    let x = rng.uniform_u32();
    assert_eq!(s.get_2d(), Point2::new(x, y));
    s.reseed(42);
    let mut r42 = Rng::new();
    r42.set_sequence(42);
    assert_eq!(s.get_1d(), r42.uniform_u32());
}

#[test]
fn gray_code_order_gives_matrix_times_gray_code() {
    let scramble = 0x1234_5678u32;
    let mut p = vec![0u32; 64];
    gray_code_sample(&CSOBOL[1], 64, scramble, &mut p);
    for i in 0..64u32 {
        let g = i ^ (i >> 1);
        let mut direct = 0u32;
        for b in 0..32 {
            if (g >> b) & 1 == 1 {
                direct ^= CSOBOL[1][b];
            }
        }
        assert_eq!(p[i as usize], scramble ^ direct);
    }
}

/// Fisher-Yates over blocks of `dims` values, driven by the generator as the
/// sampler drives it.
fn reference_shuffle<T>(samp: &mut [T], count: u32, dims: u32, rng: &mut Rng) {
    for i in 0..count {
        let other = i + rng.uniform_u32_bounded(count - i);
        for j in 0..dims {
            samp.swap((dims * i + j) as usize, (dims * other + j) as usize);
        }
    }
}

#[test]
fn shuffle_is_fisher_yates_on_the_generator() {
    let mut rng = Rng::new();
    rng.set_sequence(7);
    let mut expected_rng = rng;
    let mut samples: Vec<u32> = (0..30).collect();
    let mut expected = samples.clone();
    shuffle(&mut samples[..], 10, 3, &mut rng);
    reference_shuffle(&mut expected[..], 10, 3, &mut expected_rng);
    assert_eq!(samples, expected);
    assert_ne!(samples, (0..30).collect::<Vec<u32>>());
    // Both generators took the same draws.
    assert_eq!(rng.uniform_u32(), expected_rng.uniform_u32());
}

#[test]
fn van_der_corput_is_scrambled_gray_code_then_two_shuffles() {
    let mut rng = Rng::new();
    let mut expected_rng = rng;
    let mut samples = vec![0u32; 4 * 8];
    van_der_corput(4, 8, &mut samples[..], &mut rng);
    let scramble = expected_rng.uniform_u32();
    let mut expected = vec![0u32; 32];
    gray_code_sample(&CVAN_DER_CORPUT, 32, scramble, &mut expected);
    for i in 0..8usize {
        reference_shuffle(&mut expected[i * 4..], 4, 1, &mut expected_rng);
    }
    reference_shuffle(&mut expected[..], 8, 4, &mut expected_rng);
    assert_eq!(samples, expected);
    assert_eq!(rng.uniform_u32(), expected_rng.uniform_u32());
}

#[test]
fn sobol_2d_is_scrambled_gray_code_then_two_shuffles() {
    let mut rng = Rng::new();
    let mut expected_rng = rng;
    let mut samples = vec![Point2::new(0u32, 0u32); 2 * 8];
    sobol_2d(2, 8, &mut samples[..], &mut rng);
    let sx = expected_rng.uniform_u32();
    let sy = expected_rng.uniform_u32();
    let mut expected = vec![Point2::new(0u32, 0u32); 16];
    gray_code_sample_2d(&CSOBOL[0], &CSOBOL[1], 16, Point2::new(sx as i32, sy as i32), &mut expected);
    for i in 0..8usize {
        reference_shuffle(&mut expected[i * 2..], 2, 1, &mut expected_rng);
    }
    reference_shuffle(&mut expected[..], 8, 2, &mut expected_rng);
    assert_eq!(samples, expected);
    assert_eq!(rng.uniform_u32(), expected_rng.uniform_u32());
}
