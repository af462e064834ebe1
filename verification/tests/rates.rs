use low_samplerate_audio_classifier::rates::plan_rates;

#[test]
fn sweep_default_bounds() {
    assert_eq!(plan_rates(2048, 8192), vec![2048, 4096, 8192]);
}

#[test]
fn sweep_empty_when_min_exceeds_max() {
    assert_eq!(plan_rates(5, 4), Vec::<u32>::new());
}

#[test]
fn sweep_single_when_bounds_equal() {
    assert_eq!(plan_rates(100, 100), vec![100]);
}

#[test]
fn sweep_stops_below_max() {
    assert_eq!(plan_rates(3, 25), vec![3, 6, 12, 24]);
}

#[test]
fn sweep_near_integer_limit() {
    // Doubling past the representable range must still terminate cleanly.
    assert_eq!(plan_rates(u32::MAX, u32::MAX), vec![u32::MAX]);
    assert_eq!(plan_rates(1 << 31, u32::MAX), vec![1 << 31]);
}

#[test]
fn sweep_is_strictly_increasing() {
    let rates = plan_rates(7, 1_000_000);
    for w in rates.windows(2) {
        assert!(w[0] < w[1]);
    }
    for &r in &rates {
        assert!((7..=1_000_000).contains(&r));
    }
}
