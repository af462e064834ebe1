//! The resampler.
//!
//! Audio decoded at one sample rate is converted to another rate by linear
//! interpolation between the two source samples that bracket each output
//! position. The library works on integer (fixed-point) sample values, so
//! the interpolation is exact rational arithmetic with the fractional part
//! truncated toward the lower bracketing sample; the result is therefore
//! bit-reproducible on every machine. No anti-aliasing filter is applied:
//! downsampling may alias. That is a deliberate simplification of this
//! pipeline, not an oversight.

use vstd::prelude::*;

verus! {

use vstd::arithmetic::div_mod::lemma_div_is_ordered;
use vstd::arithmetic::div_mod::lemma_div_multiples_vanish;
use vstd::arithmetic::div_mod::lemma_div_pos_is_pos;
use vstd::arithmetic::div_mod::lemma_fundamental_div_mod;
use vstd::arithmetic::div_mod::lemma_mod_bound;
use vstd::arithmetic::div_mod::lemma_mod_multiples_basic;
use vstd::arithmetic::mul::lemma_mul_inequality;

/// Largest magnitude a sample value may have. Interpolation multiplies a
/// sample difference (at most twice this) by a remainder below the target
/// rate (below 2^32), and the product must fit in 64 bits.
pub const SAMPLE_LIMIT: i64 = 0x2000_0000;

/// Every sample of `s` lies within `[-SAMPLE_LIMIT, SAMPLE_LIMIT]`.
pub open spec fn in_sample_range(s: Seq<i64>) -> bool {
    forall|k: int| 0 <= k < s.len() ==> -SAMPLE_LIMIT <= #[trigger] s[k] <= SAMPLE_LIMIT
}

/// The sample sequence is strictly increasing.
pub open spec fn strictly_increasing(s: Seq<i64>) -> bool {
    forall|j: int, k: int| 0 <= j < k < s.len() ==> s[j] < s[k]
}

/// Value of output sample `i` when resampling `s` from rate `o` to rate `t`.
///
/// Output position `i` sits at fractional source position `i * o / t`; the
/// value interpolates linearly between the samples below and above it, with
/// the fractional step truncated toward the lower sample.
pub open spec fn interp_at(s: Seq<i64>, o: int, t: int, i: int) -> int {
    let low = i * o / t;
    let rem = i * o % t;
    if rem == 0 {
        s[low] as int
    } else {
        let a = s[low] as int;
        let b = s[low + 1] as int;
        if a <= b {
            a + (b - a) * rem / t
        } else {
            a - (a - b) * rem / t
        }
    }
}

/// Number of samples that resampling a sequence of length `len` from rate
/// `o` to rate `t` produces: the requested `len * t / o`, unless the upper
/// bracketing index runs past the end of the input first, in which case the
/// output stops early (truncation, not an error).
pub open spec fn resampled_len(len: int, o: int, t: int) -> int {
    if len == 0 {
        0
    } else {
        let full = len * t / o;
        let cut = (len - 1) * t / o + 1;
        if full <= cut {
            full
        } else {
            cut
        }
    }
}

/// A truncated fraction of a non-negative quantity `d` stays within
/// `[0, d]`.
proof fn lemma_truncated_fraction_in_range(d: int, rem: int, t: int)
    requires
        0 <= d,
        0 <= rem < t,
    ensures
        0 <= d * rem / t <= d,
{
    assert(0 <= d * rem) by (nonlinear_arith)
        requires
            0 <= d,
            0 <= rem,
    ;
    lemma_div_pos_is_pos(d * rem, t);
    assert(d * rem <= t * d) by (nonlinear_arith)
        requires
            0 <= d,
            rem < t,
    ;
    lemma_div_is_ordered(d * rem, t * d, t);
    lemma_div_multiples_vanish(d, t);
}

/// Bounds on the bracketing source indices of output sample `i`: the lower
/// index stays inside the input, and whenever the fractional part is not
/// zero the upper index does too.
proof fn lemma_src_index_bounds(len: int, o: int, t: int, i: int)
    requires
        o >= 1,
        t >= 1,
        len >= 1,
        0 <= i < resampled_len(len, o, t),
    ensures
        i * o <= (len - 1) * t,
        i * o <= len * t,
        0 <= i * o / t <= len - 1,
        i * o % t != 0 ==> i * o / t <= len - 2,
        0 <= i * o % t < t,
{
    let k = (len - 1) * t;
    assert(i <= k / o);
    lemma_mul_inequality(i, k / o, o);
    assert(o * (k / o) + k % o == k) by {
        lemma_fundamental_div_mod(k, o);
    }
    lemma_mod_bound(k, o);
    assert((k / o) * o == o * (k / o)) by (nonlinear_arith);
    assert(i * o <= k);
    assert(k <= len * t) by (nonlinear_arith)
        requires
            k == (len - 1) * t,
            t >= 1,
    ;
    assert(0 <= i * o) by (nonlinear_arith)
        requires
            0 <= i,
            0 <= o,
    ;
    lemma_div_pos_is_pos(i * o, t);
    lemma_div_is_ordered(i * o, k, t);
    lemma_div_multiples_vanish(len - 1, t);
    assert(t * (len - 1) == k) by (nonlinear_arith)
        requires
            k == (len - 1) * t,
    ;
    assert(i * o / t <= len - 1);
    lemma_mod_bound(i * o, t);
    lemma_fundamental_div_mod(i * o, t);
    if i * o % t != 0 && i * o / t > len - 2 {
        assert(i * o / t == len - 1);
        assert(i * o == t * (len - 1) + i * o % t);
        assert(i * o > k);
        assert(false);
    }
}

/// Converts `samples`, taken at `original_rate` hertz, to `target_rate`
/// hertz by truncating linear interpolation. The contract pins the result
/// exactly: the length is `resampled_len` (the requested length unless the
/// upper bracketing index would run off the end, which stops the output
/// early), every element is `interp_at`, the output stays within the sample
/// range, and equal rates reproduce the input unchanged.
#[verifier::loop_isolation(false)]
pub fn resample(samples: &Vec<i64>, original_rate: u32, target_rate: u32) -> (out: Vec<i64>)
    requires
        original_rate >= 1,
        target_rate >= 1,
        samples@.len() * target_rate <= usize::MAX,
        in_sample_range(samples@),
    ensures
        out@.len() == resampled_len(samples@.len() as int, original_rate as int, target_rate as int),
        forall|i: int|
            0 <= i < out@.len() ==> #[trigger] out@[i] as int == interp_at(
                samples@,
                original_rate as int,
                target_rate as int,
                i,
            ),
        in_sample_range(out@),
        original_rate == target_rate ==> out@ == samples@,
{
    let len = samples.len();
    if original_rate == target_rate {
        let mut out: Vec<i64> = Vec::new();
        let mut i: usize = 0;
        while i < len
            invariant
                i <= len,
                out@.len() == i,
                forall|j: int| 0 <= j < i ==> #[trigger] out@[j] == samples@[j],
            decreases len - i,
        {
            out.push(samples[i]);
            i = i + 1;
        }
        proof {
            let t = target_rate as int;
            assert(out@ =~= samples@);
            if len > 0 {
                lemma_div_multiples_vanish(len as int, t);
                assert(len as int * t == t * (len as int)) by (nonlinear_arith);
                lemma_div_multiples_vanish(len as int - 1, t);
                assert((len as int - 1) * t == t * (len as int - 1)) by (nonlinear_arith);
            }
            assert forall|i: int| 0 <= i < len implies interp_at(samples@, t, t, i)
                == samples@[i] as int by {
                lemma_mod_multiples_basic(i, t);
                lemma_div_multiples_vanish(i, t);
                assert(i * t == t * i) by (nonlinear_arith);
            }
        }
        return out;
    }
    if len == 0 {
        return Vec::new();
    }
    let o: usize = original_rate as usize;
    let t: usize = target_rate as usize;
    proof {
        assert((len - 1) as int * t <= len as int * t - 1) by (nonlinear_arith)
            requires
                t >= 1,
                len >= 1,
        ;
        lemma_div_pos_is_pos((len - 1) as int * t, o as int);
        lemma_div_is_ordered((len - 1) as int * t, len as int * t, o as int);
        lemma_div_pos_is_pos(len as int * t, o as int);
        assert(len as int * t / o as int <= len as int * t) by {
            lemma_fundamental_div_mod(len as int * t, o as int);
            lemma_mod_bound(len as int * t, o as int);
            assert(o as int * (len as int * t / o as int) >= len as int * t / o as int)
                by (nonlinear_arith)
                requires
                    o >= 1,
                    len as int * t / o as int >= 0,
            ;
        }
    }
    let full: usize = len * t / o;
    let cut: usize = (len - 1) * t / o + 1;
    let produced: usize = if full <= cut {
        full
    } else {
        cut
    };
    let ghost oi = o as int;
    let ghost ti = t as int;
    assert(produced == resampled_len(len as int, oi, ti));
    let mut out: Vec<i64> = Vec::new();
    let mut i: usize = 0;
    while i < produced
        invariant
            i <= produced,
            out@.len() == i,
            forall|k: int|
                0 <= k < i ==> #[trigger] out@[k] as int == interp_at(samples@, oi, ti, k),
            in_sample_range(out@),
        decreases produced - i,
    {
        proof {
            lemma_src_index_bounds(len as int, oi, ti, i as int);
        }
        let num: usize = i * o;
        let low: usize = num / t;
        let rem: usize = num % t;
        let a: i64 = samples[low];
        let v: i64;
        if rem == 0 {
            v = a;
        } else {
            let b: i64 = samples[low + 1];
            proof {
                let diff: int = if a <= b {
                    b - a
                } else {
                    a - b
                };
                lemma_truncated_fraction_in_range(diff, rem as int, ti);
            }
            if a <= b {
                let d: u64 = (b - a) as u64;
                proof {
                    assert(d as int * (rem as int) <= 0x4000_0000 * 0xffff_ffff)
                        by (nonlinear_arith)
                        requires
                            0 <= d as int <= 0x4000_0000,
                            0 <= rem as int <= 0xffff_ffff,
                    ;
                }
                let q: u64 = d * (rem as u64) / (t as u64);
                v = a + (q as i64);
            } else {
                let d: u64 = (a - b) as u64;
                proof {
                    assert(d as int * (rem as int) <= 0x4000_0000 * 0xffff_ffff)
                        by (nonlinear_arith)
                        requires
                            0 <= d as int <= 0x4000_0000,
                            0 <= rem as int <= 0xffff_ffff,
                    ;
                }
                let q: u64 = d * (rem as u64) / (t as u64);
                v = a - (q as i64);
            }
        }
        out.push(v);
        i = i + 1;
    }
    out
}

/// Resampling never yields more than the requested number of samples:
/// the output length is at most `len * t / o`, the input length scaled by
/// the rate ratio and rounded down.
pub proof fn lemma_resampled_len_bound(len: int, o: int, t: int)
    requires
        len >= 0,
        o >= 1,
        t >= 1,
    ensures
        resampled_len(len, o, t) <= len * t / o,
{
    if len == 0 {
        assert(len * t == 0) by (nonlinear_arith)
            requires
                len == 0,
        ;
    }
}

/// Interpolation stays between its bounding samples: for a strictly
/// increasing input sequence, every resampled value lies between the sample
/// at its lower bracketing index and the sample at its upper one.
pub proof fn lemma_interp_between(s: Seq<i64>, o: int, t: int, i: int)
    requires
        o >= 1,
        t >= 1,
        strictly_increasing(s),
        0 <= i < resampled_len(s.len() as int, o, t),
    ensures
        s[i * o / t] as int <= interp_at(s, o, t, i),
        interp_at(s, o, t, i) <= s[
            if i * o % t == 0 {
                i * o / t
            } else {
                i * o / t + 1
            }
        ] as int,
{
    lemma_src_index_bounds(s.len() as int, o, t, i);
    let low = i * o / t;
    let rem = i * o % t;
    if rem != 0 {
        let a = s[low] as int;
        let b = s[low + 1] as int;
        assert(a < b);
        lemma_truncated_fraction_in_range(b - a, rem, t);
    }
}

} // verus!
