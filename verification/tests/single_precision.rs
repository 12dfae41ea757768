use layout::binary32::{mean_pattern, quotient_pattern, rounded};

/// A small linear congruential generator, so that the samples are fixed.
struct Lcg(u64);

impl Lcg {
    fn next(&mut self) -> u64 {
        self.0 = self.0.wrapping_mul(6364136223846793005).wrapping_add(1442695040888963407);
        self.0
    }

    /// A value with a random number of significant bits, up to `max_bits`.
    fn magnitude(&mut self, max_bits: u32) -> u128 {
        let bits = (self.next() % (max_bits as u64 + 1)) as u32;
        let wide = ((self.next() as u128) << 64) | self.next() as u128;
        if bits == 0 {
            0
        } else if bits >= 128 {
            wide
        } else {
            wide & ((1u128 << bits) - 1)
        }
    }
}

#[test]
fn quotients_of_exact_terms_match_hardware_division() {
    let terms: [u128; 12] = [1, 2, 3, 5, 7, 10, 100, 255, 12345, 65535, 8_388_607, 16_777_215];
    for &a in terms.iter().chain([0u128].iter()) {
        for &b in terms.iter() {
            let expected = (a as f32 / b as f32).to_bits();
            assert_eq!(quotient_pattern(a, b), expected, "{a} / {b}");
        }
    }
}

#[test]
fn rounding_of_naturals_matches_conversion() {
    let samples: [u128; 14] = [
        0,
        1,
        16_777_216,
        16_777_217,
        16_777_218,
        16_777_219,
        33_554_434,
        33_554_438,
        u32::MAX as u128,
        u64::MAX as u128,
        (1u128 << 100) + (1u128 << 76),
        (1u128 << 100) + (3u128 << 76),
        (u128::MAX - ((1u128 << 104) - 1)),
        (1u128 << 127) + 12345,
    ];
    for &n in samples.iter() {
        let expected = n as f32;
        assert!(expected.is_finite());
        assert_eq!(rounded(n), Some(expected as u128), "{n}");
    }
    assert_eq!(rounded((u128::MAX - ((1u128 << 103) - 1))), None);
    assert_eq!(rounded(u128::MAX), None);
    assert_eq!(rounded((u128::MAX - ((1u128 << 103) - 1)) - 1), Some((u128::MAX - ((1u128 << 104) - 1))));
}

#[test]
fn ties_round_to_even_significands() {
    // 2^24 + 1 lies halfway between 2^24 and 2^24 + 2: the even one wins.
    assert_eq!(rounded(16_777_217), Some(16_777_216));
    // 2^24 + 3 lies halfway between 2^24 + 2 and 2^24 + 4: the even one wins.
    assert_eq!(rounded(16_777_219), Some(16_777_220));
    assert_eq!(mean_pattern(16_777_217, 1), 16_777_216f32.to_bits());
    assert_eq!(mean_pattern(1, 3), (1f32 / 3f32).to_bits());
}

#[test]
fn means_match_hardware_arithmetic_on_random_terms() {
    let mut rng = Lcg(0x5eed);
    for _ in 0..200_000 {
        let sum = rng.magnitude(64) as u64;
        let count = (rng.magnitude(64) as u64).max(1);
        let expected = (sum as f32 / count as f32).to_bits();
        assert_eq!(mean_pattern(sum as u128, count), expected, "{sum} / {count}");
    }
}

#[test]
fn means_of_wide_sums_match_hardware_arithmetic() {
    let mut rng = Lcg(0xfeed);
    for _ in 0..200_000 {
        let sum = rng.magnitude(128);
        let count = (rng.magnitude(64) as u64).max(1);
        let expected = (sum as f32 / count as f32).to_bits();
        assert_eq!(mean_pattern(sum, count), expected, "{sum} / {count}");
    }
    assert_eq!(mean_pattern(u128::MAX, 7), f32::INFINITY.to_bits());
}

#[test]
fn means_of_small_terms_match_hardware_arithmetic() {
    for sum in 0u128..300 {
        for count in 1u64..300 {
            let expected = (sum as f32 / count as f32).to_bits();
            assert_eq!(mean_pattern(sum, count), expected, "{sum} / {count}");
        }
    }
}

#[test]
fn larger_quotients_never_get_smaller_patterns() {
    let mut rng = Lcg(0xabcd);
    for _ in 0..100_000 {
        let a1 = rng.magnitude(60);
        let a2 = rng.magnitude(60);
        let b1 = rng.magnitude(40).max(1);
        let b2 = rng.magnitude(40).max(1);
        let (p1, p2) = (quotient_pattern(a1, b1), quotient_pattern(a2, b2));
        if a1 * b2 <= a2 * b1 {
            assert!(p1 <= p2, "{a1}/{b1} <= {a2}/{b2}");
        } else {
            assert!(p2 <= p1, "{a2}/{b2} <= {a1}/{b1}");
        }
    }
    assert!(quotient_pattern(1, 3) < quotient_pattern(1, 2));
    assert_eq!(quotient_pattern(2, 4), quotient_pattern(1, 2));
}
