//! The spectrogram generator's framing and truncation logic.
//!
//! A clip is resampled to the target rate, truncated to the requested
//! number of samples, and cut into one window of samples per time bucket.
//! Each window is what the frequency transform consumes: the surrounding
//! application multiplies it by a Hann window, applies a forward FFT and
//! keeps the magnitudes of the lower half of the spectrum. That transform
//! is floating point and lives outside this library; everything up to it —
//! which samples land in which bucket, and when the output stops early —
//! is verified here.

use vstd::prelude::*;

verus! {

use vstd::arithmetic::div_mod::lemma_div_is_ordered;
use vstd::arithmetic::div_mod::lemma_div_multiples_vanish;
use vstd::arithmetic::div_mod::lemma_div_pos_is_pos;
use vstd::arithmetic::div_mod::lemma_fundamental_div_mod;
use vstd::arithmetic::div_mod::lemma_fundamental_div_mod_converse;
use vstd::arithmetic::div_mod::lemma_mod_bound;
use vstd::arithmetic::div_mod::lemma_mod_multiples_basic;
use vstd::arithmetic::mul::lemma_mul_inequality;
use crate::resample::in_sample_range;
use crate::resample::interp_at;
use crate::resample::resample;
use crate::resample::resampled_len;

/// Number of samples a clip of `clip_duration_ms` milliseconds holds at
/// `rate` hertz, rounded down.
pub open spec fn spec_num_samples(clip_duration_ms: int, rate: int) -> int {
    clip_duration_ms * rate / 1000
}

/// Number of time buckets actually produced: buckets are laid out at
/// `window` sample intervals, each spanning `fft` samples, and production
/// stops at the first bucket whose window runs past the `avail` available
/// samples — or once all `buckets` requested buckets exist.
pub open spec fn frame_count(avail: int, window: int, fft: int, buckets: int) -> int {
    if fft > avail {
        0
    } else if window == 0 {
        buckets
    } else {
        let c = (avail - fft) / window + 1;
        if c <= buckets {
            c
        } else {
            buckets
        }
    }
}

/// A value at most a quotient, multiplied back by the divisor, stays at
/// most the dividend.
proof fn lemma_le_quotient_mul(x: int, k: int, d: int)
    requires
        0 <= x,
        0 <= k,
        1 <= d,
        x <= k / d,
    ensures
        x * d <= k,
{
    lemma_mul_inequality(x, k / d, d);
    lemma_fundamental_div_mod(k, d);
    lemma_mod_bound(k, d);
    assert((k / d) * d == d * (k / d)) by (nonlinear_arith);
}

/// Cuts a clip into its time-bucket windows.
///
/// The clip is resampled from `original_rate` to `target_rate` (a clip
/// already at the target rate is kept unchanged), truncated to the
/// requested sample count, and split into `num_time_buckets` windows of
/// `2 * freq_bin_size` samples starting every `window` samples, stopping
/// early as soon as a window would run past the available samples. The
/// contract pins every produced window element to `interp_at` on the
/// original clip, and the number of windows to `frame_count`.
#[verifier::loop_isolation(false)]
pub fn spectrogram_frames(
    samples: &Vec<i64>,
    original_rate: u32,
    target_rate: u32,
    clip_duration_ms: u64,
    num_time_buckets: usize,
    freq_bin_size: usize,
) -> (frames: Vec<Vec<i64>>)
    requires
        original_rate >= 1,
        target_rate >= 1,
        num_time_buckets >= 1,
        freq_bin_size >= 1,
        in_sample_range(samples@),
        samples@.len() * target_rate <= usize::MAX,
        clip_duration_ms * target_rate <= usize::MAX,
        2 * freq_bin_size <= usize::MAX,
    ensures
        ({
            let o = original_rate as int;
            let t = target_rate as int;
            let ns = spec_num_samples(clip_duration_ms as int, t);
            let rlen = resampled_len(samples@.len() as int, o, t);
            let avail = if ns <= rlen {
                ns
            } else {
                rlen
            };
            let window = ns / (num_time_buckets as int);
            let fft = 2 * (freq_bin_size as int);
            &&& frames@.len() == frame_count(avail, window, fft, num_time_buckets as int)
            &&& forall|b: int| 0 <= b < frames@.len() ==> (#[trigger] frames@[b])@.len() == fft
            &&& forall|b: int, j: int|
                0 <= b < frames@.len() && 0 <= j < fft ==> (#[trigger] frames@[b]@[j]) as int
                    == interp_at(samples@, o, t, b * window + j)
        }),
{
    let resampled = resample(samples, original_rate, target_rate);
    let ns_wide: u64 = clip_duration_ms * (target_rate as u64);
    proof {
        lemma_div_pos_is_pos(ns_wide as int, 1000);
        lemma_div_is_le(ns_wide as int, 1000);
    }
    let ns: usize = (ns_wide / 1000) as usize;
    let avail: usize = if ns <= resampled.len() {
        ns
    } else {
        resampled.len()
    };
    let window: usize = ns / num_time_buckets;
    let fft: usize = 2 * freq_bin_size;
    let count: usize = if fft > avail {
        0
    } else if window == 0 {
        num_time_buckets
    } else {
        proof {
            lemma_div_pos_is_pos((avail - fft) as int, window as int);
            lemma_div_is_ordered((avail - fft) as int, avail as int, window as int);
            lemma_div_is_le(avail as int, window as int);
        }
        let c: usize = (avail - fft) / window + 1;
        if c <= num_time_buckets {
            c
        } else {
            num_time_buckets
        }
    };
    let ghost oi = original_rate as int;
    let ghost ti = target_rate as int;
    assert(count == frame_count(avail as int, window as int, fft as int,
        num_time_buckets as int));
    let mut frames: Vec<Vec<i64>> = Vec::new();
    let mut b: usize = 0;
    while b < count
        invariant
            b <= count,
            frames@.len() == b,
            forall|bb: int| 0 <= bb < b ==> (#[trigger] frames@[bb])@.len() == fft,
            forall|bb: int, j: int|
                0 <= bb < b && 0 <= j < fft ==> (#[trigger] frames@[bb]@[j]) as int == interp_at(
                    samples@,
                    oi,
                    ti,
                    bb * (window as int) + j,
                ),
        decreases count - b,
    {
        proof {
            if window == 0 {
                assert(b * (window as int) == 0) by (nonlinear_arith)
                    requires
                        window == 0,
                ;
            } else {
                assert(b as int <= ((avail - fft) as int) / (window as int));
                lemma_le_quotient_mul(b as int, (avail - fft) as int, window as int);
            }
            assert(b * (window as int) + fft <= avail);
        }
        let start: usize = b * window;
        let mut frame: Vec<i64> = Vec::new();
        let mut j: usize = 0;
        while j < fft
            invariant
                j <= fft,
                frame@.len() == j,
                start + fft <= avail,
                forall|jj: int| 0 <= jj < j ==> #[trigger] frame@[jj] == resampled@[start + jj],
            decreases fft - j,
        {
            frame.push(resampled[start + j]);
            j = j + 1;
        }
        frames.push(frame);
        b = b + 1;
    }
    frames
}

/// Dividing a non-negative value by a positive divisor does not increase
/// it.
proof fn lemma_div_is_le(x: int, d: int)
    requires
        0 <= x,
        1 <= d,
    ensures
        x / d <= x,
{
    lemma_fundamental_div_mod(x, d);
    lemma_mod_bound(x, d);
    assert(d * (x / d) >= x / d) by (nonlinear_arith)
        requires
            d >= 1,
            x / d >= 0,
    ;
    lemma_div_pos_is_pos(x, d);
}

/// A silent clip of exactly the requested length fills every time bucket:
/// at the clip's own rate resampling keeps every sample, all requested
/// buckets fit, and every value handed to the frequency transform is zero
/// — so the whole spectrogram is the transform of all-zero windows.
pub proof fn lemma_silent_full_clip(
    s: Seq<i64>,
    rate: int,
    clip_duration_ms: int,
    buckets: int,
    fbins: int,
)
    requires
        rate >= 1,
        buckets >= 1,
        fbins >= 1,
        s.len() == spec_num_samples(clip_duration_ms, rate),
        forall|k: int| 0 <= k < s.len() ==> s[k] == 0,
        (buckets - 1) * (s.len() as int / buckets) + 2 * fbins <= s.len(),
    ensures
        resampled_len(s.len() as int, rate, rate) == s.len(),
        frame_count(s.len() as int, s.len() as int / buckets, 2 * fbins, buckets) == buckets,
        forall|i: int| 0 <= i < s.len() ==> interp_at(s, rate, rate, i) == 0,
{
    let len = s.len() as int;
    let window = len / buckets;
    let fft = 2 * fbins;
    assert((buckets - 1) * window >= 0) by (nonlinear_arith)
        requires
            buckets >= 1,
            window >= 0,
    ;
    assert(len >= fft);
    assert(len >= 1);
    lemma_div_multiples_vanish(len, rate);
    assert(len * rate == rate * len) by (nonlinear_arith);
    lemma_div_multiples_vanish(len - 1, rate);
    assert((len - 1) * rate == rate * (len - 1)) by (nonlinear_arith);
    assert(resampled_len(len, rate, rate) == len);
    if window != 0 {
        assert((buckets - 1) <= (len - fft) / window) by {
            assert((buckets - 1) * window <= len - fft);
            lemma_div_is_ordered((buckets - 1) * window, len - fft, window);
            lemma_div_multiples_vanish(buckets - 1, window);
            assert((buckets - 1) * window == window * (buckets - 1)) by (nonlinear_arith);
        }
        assert((len - fft) / window + 1 >= buckets);
    }
    assert(frame_count(len, window, fft, buckets) == buckets);
    assert forall|i: int| 0 <= i < len implies interp_at(s, rate, rate, i) == 0 by {
        lemma_mod_multiples_basic(i, rate);
        lemma_div_multiples_vanish(i, rate);
        assert(i * rate == rate * i) by (nonlinear_arith);
    }
}

/// Truncation policy: a clip with fewer than the requested number of
/// samples fills strictly fewer than the requested number of time buckets
/// (whenever the bucket windows span the requested sample count, as they
/// do for every window at least as long as the bucket stride's remainder
/// plus the stride). No out-of-range access is possible: `frame_count`
/// already stops at the available samples.
pub proof fn lemma_short_clip_truncates(avail: int, ns: int, buckets: int, fft: int)
    requires
        buckets >= 1,
        fft >= 1,
        0 <= avail < ns,
        (buckets - 1) * (ns / buckets) + fft >= ns,
    ensures
        frame_count(avail, ns / buckets, fft, buckets) < buckets,
{
    let window = ns / buckets;
    lemma_div_pos_is_pos(ns, buckets);
    if fft > avail {
    } else if window == 0 {
        assert((buckets - 1) * window == 0) by (nonlinear_arith)
            requires
                window == 0,
        ;
        assert(false);
    } else {
        assert(avail - fft <= (buckets - 1) * window - 1);
        lemma_div_is_ordered(avail - fft, (buckets - 1) * window - 1, window);
        assert(((buckets - 1) * window - 1) / window == buckets - 2) by {
            assert((buckets - 1) * window - 1 == (buckets - 2) * window + (window - 1))
                by (nonlinear_arith);
            lemma_fundamental_div_mod_converse(
                (buckets - 1) * window - 1,
                window,
                buckets - 2,
                window - 1,
            );
        }
        assert((avail - fft) / window + 1 <= buckets - 1);
    }
}

} // verus!
