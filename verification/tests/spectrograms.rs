use low_samplerate_audio_classifier::spectrogram::spectrogram_frames;
use rustfft::num_complex::Complex;
use rustfft::FftPlanner;

/// The floating-point stage that consumes a frame: periodic Hann window,
/// forward FFT, magnitudes of the lower half of the spectrum.
fn transform(frame: &[i64], freq_bin_size: usize) -> Vec<f32> {
    let fft_size = 2 * freq_bin_size;
    assert_eq!(frame.len(), fft_size);
    let hann: Vec<f32> = (0..fft_size)
        .map(|i| 0.5 * (1.0 - (2.0 * std::f32::consts::PI * i as f32 / (fft_size - 1) as f32).cos()))
        .collect();
    let mut buffer: Vec<Complex<f32>> = frame
        .iter()
        .zip(&hann)
        .map(|(&s, &w)| Complex::new(s as f32 * w, 0.0))
        .collect();
    let mut planner = FftPlanner::new();
    let fft = planner.plan_fft_forward(fft_size);
    fft.process(&mut buffer);
    buffer[..freq_bin_size].iter().map(|c| c.norm()).collect()
}

#[test]
fn frames_extract_the_right_windows() {
    let samples: Vec<i64> = (0..20).collect();
    // 20 samples at 10 Hz for a 2000 ms clip: 2 buckets, stride 10,
    // window 4.
    let frames = spectrogram_frames(&samples, 10, 10, 2000, 2, 2);
    assert_eq!(frames, vec![vec![0, 1, 2, 3], vec![10, 11, 12, 13]]);
}

#[test]
fn silent_full_clip_gives_full_silent_spectrogram() {
    let samples: Vec<i64> = vec![0; 1000];
    // Exactly clip_duration * rate zero samples: every bucket is filled
    // and the whole spectrogram is zero.
    let frames = spectrogram_frames(&samples, 1000, 1000, 1000, 4, 8);
    assert_eq!(frames.len(), 4);
    for frame in &frames {
        assert_eq!(frame.len(), 16);
        assert!(frame.iter().all(|&s| s == 0));
        let mags = transform(frame, 8);
        assert_eq!(mags.len(), 8);
        assert!(mags.iter().all(|&m| m.abs() < 1e-6));
    }
}

#[test]
fn sine_tone_peaks_at_its_frequency_bin() {
    // A pure 512 Hz tone at 8192 Hz with a 256-point FFT concentrates its
    // energy at bin 512 * 256 / 8192 = 16.
    let rate = 8192usize;
    let freq = 512.0f32;
    let scale = 16384.0f32;
    let samples: Vec<i64> = (0..rate)
        .map(|n| {
            (scale * (2.0 * std::f32::consts::PI * freq * n as f32 / rate as f32).sin()).round()
                as i64
        })
        .collect();
    let frames = spectrogram_frames(&samples, rate as u32, rate as u32, 1000, 31, 128);
    assert_eq!(frames.len(), 31);
    for frame in &frames {
        let mags = transform(frame, 128);
        let peak = mags
            .iter()
            .enumerate()
            .max_by(|a, b| a.1.partial_cmp(b.1).unwrap())
            .unwrap()
            .0 as i64;
        assert!((peak - 16).abs() <= 1, "peak at bin {}", peak);
    }
}

#[test]
fn short_clip_yields_fewer_buckets_without_failing() {
    // 700 of the requested 1000 samples: strictly fewer than the 4
    // requested buckets come back, and nothing goes out of range.
    let samples: Vec<i64> = vec![7; 700];
    let frames = spectrogram_frames(&samples, 1000, 1000, 1000, 4, 8);
    assert!(frames.len() < 4);
    assert_eq!(frames.len(), 3);
    for frame in &frames {
        assert_eq!(frame.len(), 16);
    }
}

#[test]
fn resampling_feeds_the_buckets_when_rates_differ() {
    // A clip at 2000 Hz analysed at 1000 Hz: half the samples remain.
    let samples: Vec<i64> = (0..2000).map(|k| k % 997).collect();
    let frames = spectrogram_frames(&samples, 2000, 1000, 1000, 4, 8);
    assert_eq!(frames.len(), 4);
    for frame in &frames {
        assert_eq!(frame.len(), 16);
    }
    // Downsampling by exactly 2 keeps the even-position samples.
    assert_eq!(frames[0][0], samples[0]);
    assert_eq!(frames[0][1], samples[2]);
}
