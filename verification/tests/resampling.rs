use low_samplerate_audio_classifier::resample::resample;

#[test]
fn identity_rates_return_input_unchanged() {
    let samples: Vec<i64> = vec![3, -7, 0, 1500, -42, 9];
    assert_eq!(resample(&samples, 44100, 44100), samples);
    assert_eq!(resample(&samples, 1, 1), samples);
    let empty: Vec<i64> = Vec::new();
    assert_eq!(resample(&empty, 8000, 8000), empty);
}

#[test]
fn upsample_interpolates_linearly() {
    let samples: Vec<i64> = vec![0, 1000, 2000, 3000];
    // Ratio 3/2: positions 0, 2/3, 4/3, 2, 8/3; the last requested
    // position (10/3) needs a sample past the end, so output stops early.
    assert_eq!(resample(&samples, 2, 3), vec![0, 666, 1333, 2000, 2666]);
}

#[test]
fn downsample_picks_every_other_sample() {
    let samples: Vec<i64> = vec![0, 10, 20, 30, 40, 50];
    assert_eq!(resample(&samples, 2, 1), vec![0, 20, 40]);
}

#[test]
fn interpolation_handles_decreasing_segments() {
    let samples: Vec<i64> = vec![100, 50];
    assert_eq!(resample(&samples, 1, 2), vec![100, 75, 50]);
}

#[test]
fn output_length_within_scaled_bound() {
    let samples: Vec<i64> = vec![5; 1000];
    for &(o, t) in &[(44100u32, 2048u32), (3, 7), (7, 3), (1, 2), (2, 1), (999, 1000)] {
        let out = resample(&samples, o, t);
        let bound = (samples.len() as u64 * t as u64 / o as u64) as usize;
        assert!(out.len() <= bound, "length {} exceeds bound {}", out.len(), bound);
    }
}

#[test]
fn interpolated_values_lie_between_bounding_samples() {
    // Strictly increasing input: every output value must lie between the
    // sample below and the sample above its fractional source position.
    let samples: Vec<i64> = (0..200).map(|k| (k as i64) * (k as i64) - 5000).collect();
    for &(o, t) in &[(3u32, 7u32), (7, 3), (5, 8), (11, 4)] {
        let out = resample(&samples, o, t);
        for (i, &v) in out.iter().enumerate() {
            let num = i * o as usize;
            let low = num / t as usize;
            let high = if num % t as usize == 0 { low } else { low + 1 };
            assert!(samples[low] <= v && v <= samples[high]);
        }
    }
}

#[test]
fn empty_input_gives_empty_output() {
    let empty: Vec<i64> = Vec::new();
    assert_eq!(resample(&empty, 100, 300), empty);
}
