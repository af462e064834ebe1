//! The sample-rate sweep planner.
//!
//! A clip is re-analysed once per target sample rate. The target rates form
//! a geometric sweep: starting at a minimum frequency bound, the rate doubles
//! until it exceeds the maximum bound.

use vstd::prelude::*;

verus! {

use vstd::arithmetic::power2::lemma2_to64;
use vstd::arithmetic::power2::lemma_pow2_pos;
use vstd::arithmetic::power2::lemma_pow2_strictly_increases;
use vstd::arithmetic::power2::lemma_pow2_unfold;
use vstd::arithmetic::power2::pow2;

/// Plans the ordered set of target sample rates: `min_freq`, doubled
/// repeatedly, up to and including the largest value that is at most
/// `max_freq`. The result is pinned down exactly: entry `i` equals
/// `min_freq * 2^i`, every entry lies in `[min_freq, max_freq]`, the first
/// power past the end exceeds `max_freq`, and the entries strictly increase
/// (so the set is duplicate-free). The sweep is empty exactly when
/// `min_freq > max_freq`.
pub fn plan_rates(min_freq: u32, max_freq: u32) -> (rates: Vec<u32>)
    requires
        min_freq >= 1,
    ensures
        forall|i: int| 0 <= i < rates@.len() ==> #[trigger] rates@[i] == min_freq * pow2(i as nat),
        forall|i: int| 0 <= i < rates@.len() ==> min_freq <= #[trigger] rates@[i] <= max_freq,
        min_freq * pow2(rates@.len() as nat) > max_freq,
        forall|i: int, j: int| 0 <= i < j < rates@.len() ==> rates@[i] < rates@[j],
        rates@.len() == 0 <==> min_freq > max_freq,
{
    let mut rates: Vec<u32> = Vec::new();
    let mut cur: u64 = min_freq as u64;
    proof {
        lemma2_to64();
        assert(rates@.len() == 0);
        assert(cur == min_freq * pow2(0)) by (nonlinear_arith)
            requires
                cur == min_freq,
                pow2(0) == 1,
        ;
    }
    while cur <= max_freq as u64
        invariant
            min_freq >= 1,
            cur == min_freq * pow2(rates@.len() as nat),
            forall|i: int| 0 <= i < rates@.len() ==> #[trigger] rates@[i] == min_freq * pow2(i as nat),
            forall|i: int| 0 <= i < rates@.len() ==> min_freq <= #[trigger] rates@[i] <= max_freq,
        decreases 2 * (max_freq as int) - cur,
    {
        let ghost n = rates@.len() as nat;
        proof {
            lemma_pow2_pos(n);
            assert(min_freq * pow2(n) >= min_freq * 1) by (nonlinear_arith)
                requires
                    min_freq >= 1,
                    pow2(n) >= 1,
            ;
        }
        rates.push(cur as u32);
        proof {
            lemma_pow2_unfold(n + 1);
            assert(2 * cur == min_freq * pow2(n + 1)) by (nonlinear_arith)
                requires
                    cur == min_freq * pow2(n),
                    pow2(n + 1) == 2 * pow2(n),
            ;
        }
        cur = cur * 2;
    }
    proof {
        if rates@.len() > 0 {
            assert(min_freq <= rates@[0] <= max_freq);
        }
        if min_freq <= max_freq {
            assert(rates@.len() != 0) by {
                if rates@.len() == 0 {
                    assert(min_freq * pow2(0) == min_freq) by (nonlinear_arith)
                        requires
                            pow2(0) == 1,
                    ;
                }
            }
        }
        assert forall|i: int, j: int| 0 <= i < j < rates@.len() implies rates@[i] < rates@[j] by {
            lemma_pow2_strictly_increases(i as nat, j as nat);
            assert(min_freq * pow2(i as nat) < min_freq * pow2(j as nat)) by (nonlinear_arith)
                requires
                    min_freq >= 1,
                    pow2(i as nat) < pow2(j as nat),
            ;
        }
    }
    rates
}

} // verus!
