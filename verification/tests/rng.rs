//! The seeded generator: reference vectors, ranges and thresholds.

use rustkv::rng::SplitMix64;

#[test]
fn matches_reference_splitmix64_vectors() {
    // Reference outputs of Vigna's splitmix64.c for seeds 0 and 42.
    let mut rng = SplitMix64::new(0);
    assert_eq!(rng.next_u64(), 0xE220_A839_7B1D_CDAF);
    assert_eq!(rng.next_u64(), 0x6E78_9E6A_A1B9_65F4);
    assert_eq!(rng.next_u64(), 0x06C4_5D18_8009_454F);

    let mut rng = SplitMix64::new(42);
    assert_eq!(rng.next_u64(), 0xBDD7_3226_2FEB_6E95);
    assert_eq!(rng.next_u64(), 0x28EF_E333_B266_F103);
    assert_eq!(rng.next_u64(), 0x4752_6757_130F_9F52);
}

#[test]
fn same_seed_same_sequence() {
    let mut a = SplitMix64::new(7);
    let mut b = SplitMix64::new(7);
    for _ in 0..100 {
        assert_eq!(a.next_u64(), b.next_u64());
    }
}

#[test]
fn next_range_stays_in_bounds() {
    let mut rng = SplitMix64::new(1);
    for _ in 0..1000 {
        let v = rng.next_range(10..=20);
        assert!((10..=20).contains(&v));
    }
    assert_eq!(rng.next_range(5..=5), 5);
    // Full-u64 range must not panic on the span overflow.
    let _ = rng.next_range(0..=u64::MAX);
}

#[test]
fn full_range_takes_the_draw_as_it_is() {
    let mut a = SplitMix64::new(9);
    let mut b = SplitMix64::new(9);
    assert_eq!(a.next_range(0..=u64::MAX), b.next_u64());
}

#[test]
fn a_range_is_the_draw_modulo_its_span() {
    // 0xE220A8397B1DCDAF % 11 == 1.
    let mut rng = SplitMix64::new(0);
    assert_eq!(rng.next_range(10..=20), 10 + 0xE220_A839_7B1D_CDAFu64 % 11);
}

/// True with probability `p` (values outside [0, 1] saturate).
fn next_bool(rng: &mut SplitMix64, p: f64) -> bool {
    let scaled = (p * (1u64 << 53) as f64).ceil();
    rng.next_below(if scaled <= 0.0 { 0 } else { scaled as u64 })
}

#[test]
fn next_bool_extremes() {
    let mut rng = SplitMix64::new(2);
    for _ in 0..100 {
        assert!(!next_bool(&mut rng, 0.0));
        assert!(next_bool(&mut rng, 1.0));
    }
}

#[test]
fn thresholds_follow_the_top_bits() {
    let mut rng = SplitMix64::new(0);
    let top = 0xE220_A839_7B1D_CDAFu64 >> 11;
    assert!(!rng.clone().next_below(top));
    assert!(rng.next_below(top + 1));
}

#[test]
fn the_kth_draw_is_the_first_draw_of_an_advanced_seed() {
    for seed in [0u64, 42, u64::MAX] {
        let mut rng = SplitMix64::new(seed);
        for k in 0..10u64 {
            let advanced = seed.wrapping_add(k.wrapping_mul(0x9E37_79B9_7F4A_7C15));
            assert_eq!(rng.next_u64(), SplitMix64::new(advanced).next_u64());
        }
    }
}
