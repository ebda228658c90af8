//! The fixed-point formats shared by the pipeline.
use vstd::arithmetic::power2::pow2;
use vstd::prelude::*;

verus! {

/// Full scale of a sample: the interval [-1.0, 1.0] maps to
/// [-SAMPLE_ONE, SAMPLE_ONE].
pub const SAMPLE_ONE: i64 = 1099511627776;

/// The largest magnitude a filter input or output may take (128 times full
/// scale). Filter outputs saturate here.
pub const SIGNAL_LIMIT: i64 = 140737488355328;

/// The value 1.0 of a filter coefficient.
pub const COEF_ONE: i64 = 72057594037927936;

/// `COEF_ONE * COEF_ONE`.
pub const COEF_ONE_SQUARED: i128 = 5192296858534827628530496329220096;

/// The power of a full-scale signal (a mean square of 1.0).
pub const POWER_ONE: u64 = 1099511627776;

/// Division rounding toward zero, as machine integer division does.
pub open spec fn trunc_div(a: int, d: int) -> int {
    if a >= 0 {
        a / d
    } else {
        -((-a) / d)
    }
}

/// Saturate a value into [-SIGNAL_LIMIT, SIGNAL_LIMIT].
pub open spec fn saturate(v: int) -> int {
    if v > SIGNAL_LIMIT {
        SIGNAL_LIMIT as int
    } else if v < -SIGNAL_LIMIT {
        -SIGNAL_LIMIT
    } else {
        v
    }
}

/// `a / d` rounded toward zero.
pub fn div_toward_zero(a: i128, d: i128) -> (q: i128)
    requires
        d > 0,
        a > i128::MIN,
    ensures
        q == trunc_div(a as int, d as int),
{
    if a >= 0 {
        a / d
    } else {
        -((-a) / d)
    }
}

/// The integer `sample` lies in the range of a signed PCM sample of
/// `bits_per_sample` bits.
pub open spec fn in_pcm_range(sample: int, bits_per_sample: nat) -> bool {
    -pow2((bits_per_sample - 1) as nat) <= sample < pow2((bits_per_sample - 1) as nat)
}

/// A signed PCM sample of `bits_per_sample` bits in the sample format: full
/// scale `2^(bits - 1)` becomes `SAMPLE_ONE`, exactly. `None` where the
/// sample does not fit that many bits.
pub fn sample_from_pcm(sample: i32, bits_per_sample: u32) -> (r: Option<i64>)
    requires
        1 <= bits_per_sample <= 32,
    ensures
        r is Some <==> in_pcm_range(sample as int, bits_per_sample as nat),
        r matches Some(v) ==> v == sample * pow2((41 - bits_per_sample) as nat),
{
    let ghost half = pow2((bits_per_sample - 1) as nat);
    let ghost shift = (41 - bits_per_sample) as nat;
    let mut full: i64 = 1;
    let mut j: u32 = 1;
    proof {
        vstd::arithmetic::power2::lemma2_to64();
    }
    while j < bits_per_sample
        invariant
            1 <= j <= bits_per_sample <= 32,
            full == pow2((j - 1) as nat),
        decreases bits_per_sample - j,
    {
        proof {
            vstd::arithmetic::power2::lemma_pow2_unfold(j as nat);
            vstd::arithmetic::power2::lemma_pow2_strictly_increases(j as nat, 32);
            vstd::arithmetic::power2::lemma2_to64();
        }
        full = full * 2;
        j = j + 1;
    }
    if (sample as i64) < -full || (sample as i64) >= full {
        return None;
    }
    let mut factor: i64 = 1;
    let mut e: u32 = 0;
    while e < 41 - bits_per_sample
        invariant
            1 <= bits_per_sample <= 32,
            e <= 41 - bits_per_sample,
            factor == pow2(e as nat),
        decreases 41 - bits_per_sample - e,
    {
        proof {
            vstd::arithmetic::power2::lemma_pow2_unfold((e + 1) as nat);
            vstd::arithmetic::power2::lemma_pow2_strictly_increases((e + 1) as nat, 41);
            vstd::arithmetic::power2::lemma2_to64_rest();
        }
        factor = factor * 2;
        e = e + 1;
    }
    proof {
        vstd::arithmetic::power2::lemma_pow2_adds((bits_per_sample - 1) as nat, shift);
        vstd::arithmetic::power2::lemma_pow2_pos(e as nat);
        vstd::arithmetic::power2::lemma2_to64_rest();
        assert(half * pow2(shift) == 0x100_0000_0000);
        assert(-0x100_0000_0000 <= sample * factor <= 0x100_0000_0000) by (nonlinear_arith)
            requires
                -half <= sample < half,
                half * factor == 0x100_0000_0000,
                factor > 0,
        ;
    }
    Some(sample as i64 * factor)
}

} // verus!
