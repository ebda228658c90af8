//! The per-channel meter: K-weighting and 100 ms mean squares.
use vstd::prelude::*;

use crate::error::LoudnessError;
use crate::filter::{
    filtered, in_signal_range, lemma_filtered_in_range, lemma_filtered_push, pass_design,
    shelf_design, state_after, tangent_in_range, Filter,
};
use crate::fixed::SAMPLE_ONE;
use crate::gating::Power;

verus! {

/// The square of the largest signal value, `SIGNAL_LIMIT^2`.
const SQUARE_LIMIT: u128 = 0x4000_0000_0000_0000_0000_0000;

/// The largest power a window can hold: the square of `SIGNAL_LIMIT` in
/// units of `POWER_ONE`, plus one for the carried remainder.
pub const WINDOW_POWER_LIMIT: u64 = 0x40_0000_0000_0001;

/// The K-weighted signal: `xs` through the stage 1 filter `shelf`, then
/// through the stage 2 filter `pass`.
pub open spec fn k_weighted(shelf: Filter, pass: Filter, xs: Seq<int>) -> Seq<int> {
    filtered(pass, filtered(shelf, xs))
}

/// The sum of the squares of the first `j` values of `zs`.
pub open spec fn square_sum(zs: Seq<int>, j: int) -> int
    decreases j,
{
    if j <= 0 {
        0
    } else {
        square_sum(zs, j - 1) + zs[j - 1] * zs[j - 1]
    }
}

/// The divisor that turns a sum of `n` squared samples into a mean power in
/// units of `POWER_ONE`.
pub open spec fn window_divisor(n: int) -> int {
    n * SAMPLE_ONE
}

/// The power of window `k` of `n` samples of `zs`.
///
/// The remainder of each window's division is carried into the next
/// window, so no energy is lost across window boundaries: the windows up to
/// `k` together hold the running square sum divided once.
pub open spec fn window_power(zs: Seq<int>, n: int, k: int) -> int {
    square_sum(zs, (k + 1) * n) / window_divisor(n) - square_sum(zs, k * n) / window_divisor(n)
}

/// `ws` holds one power for each complete window of `n` samples of `zs`.
pub open spec fn windows_match(ws: Seq<Power>, zs: Seq<int>, n: int) -> bool {
    &&& ws.len() == zs.len() as int / n
    &&& forall|k: int| 0 <= k < ws.len() ==> #[trigger] ws[k].0 == window_power(zs, n, k)
}

/// A sequence of samples as integers.
pub open spec fn sample_values(s: Seq<i64>) -> Seq<int> {
    s.map_values(|x: i64| x as int)
}

/// Measures the power of one channel in consecutive windows of 100 ms.
#[derive(Clone)]
pub struct ChannelLoudnessMeter {
    /// The number of samples that fit in 100 ms of audio.
    samples_per_100ms: u32,
    /// Stage 1 filter (head effects, high shelf).
    filter_stage1: Filter,
    /// Stage 2 filter (high pass).
    filter_stage2: Filter,
    /// The mean squares of the completed windows.
    square_sum_windows: Vec<Power>,
    /// The number of samples in the open window.
    count: u32,
    /// The sum of the squares in the open window, plus the remainder that
    /// the division of the previous windows left.
    square_sum: u128,
    /// The stage 1 filter as designed, at rest.
    stage1_design: Ghost<Filter>,
    /// The stage 2 filter as designed, at rest.
    stage2_design: Ghost<Filter>,
    /// Every sample pushed so far.
    input: Ghost<Seq<int>>,
}

impl ChannelLoudnessMeter {
    /// The number of samples in a window.
    pub closed spec fn samples_per_window(&self) -> int {
        self.samples_per_100ms as int
    }

    /// The stage 1 filter the meter started with.
    pub closed spec fn stage1(&self) -> Filter {
        self.stage1_design@
    }

    /// The stage 2 filter the meter started with.
    pub closed spec fn stage2(&self) -> Filter {
        self.stage2_design@
    }

    /// The samples pushed so far, in order.
    pub closed spec fn input(&self) -> Seq<int> {
        self.input@
    }

    /// The powers of the completed windows, in order.
    pub closed spec fn windows(&self) -> Seq<Power> {
        self.square_sum_windows@
    }

    /// The completed windows are those of the K-weighted input.
    pub open spec fn windows_follow_input(&self) -> bool {
        windows_match(
            self.windows(),
            k_weighted(self.stage1(), self.stage2(), self.input()),
            self.samples_per_window(),
        )
    }

    /// Every window's power is at most `WINDOW_POWER_LIMIT`, so the windows
    /// of two channels can be summed.
    pub open spec fn windows_bounded(&self) -> bool {
        forall|k: int| 0 <= k < self.windows().len() ==> #[trigger] self.windows()[k].0 <= WINDOW_POWER_LIMIT
    }

    /// The internal state agrees with the input pushed so far.
    pub closed spec fn wf(&self) -> bool {
        let n = self.samples_per_100ms as int;
        let d = window_divisor(n);
        let ys = filtered(self.stage1_design@, self.input@);
        let zs = filtered(self.stage2_design@, ys);
        let closed_len = self.square_sum_windows@.len() * n;
        &&& 0 < n <= u32::MAX / 10
        &&& self.filter_stage1.wf()
        &&& self.filter_stage2.wf()
        &&& self.filter_stage1 == state_after(self.stage1_design@, self.input@)
        &&& self.filter_stage2 == state_after(self.stage2_design@, ys)
        &&& self.count < n
        &&& self.input@.len() == closed_len + self.count
        &&& forall|k: int|
            0 <= k < self.square_sum_windows@.len() ==> #[trigger] self.square_sum_windows@[k].0
                == window_power(zs, n, k)
        &&& forall|k: int|
            0 <= k < self.square_sum_windows@.len() ==> #[trigger] self.square_sum_windows@[k].0
                <= WINDOW_POWER_LIMIT
        &&& self.square_sum == square_sum(zs, self.input@.len() as int) - d * (square_sum(
            zs,
            closed_len,
        ) / d)
        &&& self.square_sum <= d + self.count * SQUARE_LIMIT
    }

    /// A meter for a channel at `sample_rate_hz`, whose filters are designed
    /// for the tangents `tan(pi f0 / fs)` of their corner frequencies, scaled
    /// by `COEF_ONE`.
    ///
    /// Rejects a sample rate below 10 Hz, which gives no sample per window,
    /// and a negative tangent: a corner frequency at or above the Nyquist
    /// frequency (a rate at or below twice the corner), where the design
    /// would not be a stable filter. Every non-negative tangent is accepted.
    pub fn new(sample_rate_hz: u32, shelf_tangent: i64, pass_tangent: i64) -> (r: Result<
        ChannelLoudnessMeter,
        LoudnessError,
    >)
        ensures
            sample_rate_hz < 10 ==> r == Err::<ChannelLoudnessMeter, LoudnessError>(
                LoudnessError::SampleRateTooLow,
            ),
            sample_rate_hz >= 10 && !(tangent_in_range(shelf_tangent as int) && tangent_in_range(
                pass_tangent as int,
            )) ==> r == Err::<ChannelLoudnessMeter, LoudnessError>(
                LoudnessError::TangentOutOfRange,
            ),
            r is Ok <==> sample_rate_hz >= 10 && tangent_in_range(shelf_tangent as int)
                && tangent_in_range(pass_tangent as int),
            r matches Ok(m) ==> {
                &&& m.wf()
                &&& m.samples_per_window() == sample_rate_hz / 10
                &&& m.stage1() == shelf_design(shelf_tangent as int)
                &&& m.stage2() == pass_design(pass_tangent as int)
                &&& m.input() == Seq::<int>::empty()
                &&& m.windows() == Seq::<Power>::empty()
                &&& m.windows_follow_input()
                &&& m.windows_bounded()
            },
    {
        if sample_rate_hz < 10 {
            return Err(LoudnessError::SampleRateTooLow);
        }
        if shelf_tangent < 0 || pass_tangent < 0 {
            return Err(LoudnessError::TangentOutOfRange);
        }
        let filter_stage1 = Filter::high_shelf(shelf_tangent);
        let filter_stage2 = Filter::high_pass(pass_tangent);
        let m = ChannelLoudnessMeter {
            samples_per_100ms: sample_rate_hz / 10,
            filter_stage1,
            filter_stage2,
            square_sum_windows: Vec::new(),
            count: 0,
            square_sum: 0,
            stage1_design: Ghost(filter_stage1),
            stage2_design: Ghost(filter_stage2),
            input: Ghost(Seq::empty()),
        };
        proof {
            assert(m.square_sum_windows@.len() == 0);
            assert(m.wf());
            m.lemma_windows_follow_input();
        }
        Ok(m)
    }

    /// The invariant gives the public account of the windows.
    proof fn lemma_windows_follow_input(&self)
        requires
            self.wf(),
        ensures
            self.windows_follow_input(),
            self.windows_bounded(),
    {
        let n = self.samples_per_100ms as int;
        let zs = k_weighted(self.stage1_design@, self.stage2_design@, self.input@);
        lemma_filtered_in_range(self.stage1_design@, self.input@);
        lemma_filtered_in_range(self.stage2_design@, filtered(self.stage1_design@, self.input@));
        vstd::arithmetic::div_mod::lemma_fundamental_div_mod_converse(
            self.input@.len() as int,
            n,
            self.square_sum_windows@.len() as int,
            self.count as int,
        );
    }

    /// The powers of the completed windows.
    pub fn power_windows(&self) -> (r: &[Power])
        ensures
            r@ == self.windows(),
    {
        self.square_sum_windows.as_slice()
    }

    /// The powers of the completed windows, consuming the meter.
    pub fn into_windows(self) -> (r: Vec<Power>)
        ensures
            r@ == self.windows(),
    {
        self.square_sum_windows
    }

    /// Feed input samples for loudness analysis.
    ///
    /// Full scale is `SAMPLE_ONE`. Feeding several batches is the same as
    /// feeding them as one: the state depends on the whole input alone.
    /// Samples of a window that is still open are kept for the next push.
    pub fn push(&mut self, samples: &[i64])
        requires
            old(self).wf(),
            forall|i: int| 0 <= i < samples@.len() ==> in_signal_range(#[trigger] samples@[i] as int),
        ensures
            final(self).wf(),
            final(self).samples_per_window() == old(self).samples_per_window(),
            final(self).stage1() == old(self).stage1(),
            final(self).stage2() == old(self).stage2(),
            final(self).input() == old(self).input() + sample_values(samples@),
            final(self).windows_follow_input(),
            final(self).windows_bounded(),
    {
        let ghost start = self.input@;
        let mut i: usize = 0;
        while i < samples.len()
            invariant
                self.wf(),
                self.samples_per_100ms == old(self).samples_per_100ms,
                self.stage1_design == old(self).stage1_design,
                self.stage2_design == old(self).stage2_design,
                start == old(self).input@,
                i <= samples@.len(),
                self.input@ == start + sample_values(samples@.take(i as int)),
                forall|j: int| 0 <= j < samples@.len() ==> in_signal_range(#[trigger] samples@[j] as int),
            decreases samples@.len() - i,
        {
            let x = samples[i];
            self.step(x);
            proof {
                assert(sample_values(samples@.take(i + 1)) =~= sample_values(samples@.take(i as int)).push(x as int));
                assert(start + sample_values(samples@.take(i + 1)) =~= (start + sample_values(samples@.take(i as int))).push(x as int));
            }
            i = i + 1;
        }
        proof {
            assert(samples@.take(i as int) =~= samples@);
            self.lemma_windows_follow_input();
        }
    }

    /// Feed one sample.
    fn step(&mut self, x: i64)
        requires
            old(self).wf(),
            in_signal_range(x as int),
        ensures
            final(self).wf(),
            final(self).samples_per_100ms == old(self).samples_per_100ms,
            final(self).stage1_design == old(self).stage1_design,
            final(self).stage2_design == old(self).stage2_design,
            final(self).input@ == old(self).input@.push(x as int),
    {
        let ghost n = self.samples_per_100ms as int;
        let ghost d = window_divisor(n);
        let ghost xs = self.input@;
        let ghost ys = filtered(self.stage1_design@, xs);
        let ghost zs = filtered(self.stage2_design@, ys);
        let ghost closed_len = self.square_sum_windows@.len() * n;
        let y = self.filter_stage1.apply(x);
        let z = self.filter_stage2.apply(y);
        proof {
            lemma_filtered_push(self.stage1_design@, xs, x as int);
            lemma_filtered_push(self.stage2_design@, ys, y as int);
            lemma_filtered_in_range(self.stage1_design@, xs);
            lemma_filtered_in_range(self.stage2_design@, ys);
            lemma_square_sum_push(zs, z as int);
            assert(0 <= z * z <= SQUARE_LIMIT) by (nonlinear_arith)
                requires
                    -0x8000_0000_0000 <= z <= 0x8000_0000_0000,
            ;
            assert(self.count * SQUARE_LIMIT + SQUARE_LIMIT <= n * SQUARE_LIMIT) by (
            nonlinear_arith)
                requires
                    self.count < n,
            ;
            assert(n * SQUARE_LIMIT <= 0x1999_9999 * SQUARE_LIMIT) by (nonlinear_arith)
                requires
                    n <= 0x1999_9999,
            ;
        }
        let zz = (z as i128 * z as i128) as u128;
        self.square_sum = self.square_sum + zz;
        self.count = self.count + 1;
        self.input = Ghost(xs.push(x as int));
        let ghost zs2 = zs.push(z as int);
        proof {
            assert forall|k: int| 0 <= k < self.square_sum_windows@.len() implies #[trigger] self.square_sum_windows@[k].0
                == window_power(zs2, n, k) by {
                assert((k + 1) * n <= closed_len) by (nonlinear_arith)
                    requires
                        k + 1 <= self.square_sum_windows@.len(),
                        closed_len == self.square_sum_windows@.len() * n,
                        n > 0,
                ;
                assert(k * n <= (k + 1) * n) by (nonlinear_arith)
                    requires
                        n > 0,
                ;
            }
            assert(self.square_sum == square_sum(zs2, self.input@.len() as int) - d * (square_sum(zs2, closed_len) / d));
        }
        if self.count == self.samples_per_100ms {
            let divisor: u128 = self.samples_per_100ms as u128 * SAMPLE_ONE as u128;
            proof {
                let c = square_sum(zs2, self.input@.len() as int);
                let q = square_sum(zs2, closed_len) / d;
                lemma_sub_multiple(c, q, d);
                assert(self.square_sum <= d + d * 0x40_0000_0000_0000) by (nonlinear_arith)
                    requires
                        self.square_sum <= d + n * SQUARE_LIMIT,
                        d == n * SAMPLE_ONE,
                ;
                vstd::arithmetic::div_mod::lemma_div_is_ordered(self.square_sum as int, d + d * 0x40_0000_0000_0000, d);
                assert((d + d * 0x40_0000_0000_0000) / d == 0x40_0000_0000_0001) by (nonlinear_arith)
                    requires
                        d > 0,
                ;
                vstd::arithmetic::div_mod::lemma_mod_bound(self.square_sum as int, d);
                assert(self.input@.len() == closed_len + n);
                assert(closed_len + n == (self.square_sum_windows@.len() + 1) * n) by (nonlinear_arith)
                    requires
                        closed_len == self.square_sum_windows@.len() * n,
                ;
            }
            self.square_sum_windows.push(Power((self.square_sum / divisor) as u64));
            self.square_sum = self.square_sum % divisor;
            self.count = 0;
        }
    }
}

/// Feeding a stream in chunks gives the windows that feeding it at once
/// gives: two meters with the same window length and filters that have
/// been fed the same samples, in whatever batches, hold the same windows.
pub proof fn lemma_streaming_equivalence(a: &ChannelLoudnessMeter, b: &ChannelLoudnessMeter)
    requires
        a.windows_follow_input(),
        b.windows_follow_input(),
        a.samples_per_window() == b.samples_per_window(),
        a.stage1() == b.stage1(),
        a.stage2() == b.stage2(),
        a.input() == b.input(),
    ensures
        a.windows() == b.windows(),
{
    assert forall|k: int| 0 <= k < a.windows().len() implies a.windows()[k] == b.windows()[k] by {
        assert(a.windows()[k].0 == b.windows()[k].0);
    }
    assert(a.windows() =~= b.windows());
}

/// The sum of the first `j` powers of `ws`.
pub open spec fn power_total(ws: Seq<Power>, j: int) -> int
    decreases j,
{
    if j <= 0 {
        0
    } else {
        power_total(ws, j - 1) + ws[j - 1].0
    }
}

/// No energy is lost between windows: the first `j` windows together hold
/// the square sum of their samples divided once, so the rounding of each
/// window's mean is made up in the next.
pub proof fn lemma_windows_conserve_energy(ws: Seq<Power>, zs: Seq<int>, n: int, j: int)
    requires
        n > 0,
        windows_match(ws, zs, n),
        0 <= j <= ws.len(),
    ensures
        power_total(ws, j) == square_sum(zs, j * n) / window_divisor(n),
    decreases j,
{
    if j > 0 {
        lemma_windows_conserve_energy(ws, zs, n, j - 1);
        assert(ws[j - 1].0 == window_power(zs, n, j - 1));
        assert((j - 1 + 1) * n == j * n);
    } else {
        assert(j * n == 0) by (nonlinear_arith)
            requires
                j == 0,
        ;
        assert(0int / window_divisor(n) == 0) by {
            assert(window_divisor(n) > 0) by (nonlinear_arith)
                requires
                    n > 0,
            ;
        }
    }
}

/// Appending a value leaves the earlier square sums as they were.
proof fn lemma_square_sum_push(zs: Seq<int>, z: int)
    ensures
        forall|j: int| j <= zs.len() ==> #[trigger] square_sum(zs.push(z), j) == square_sum(zs, j),
        square_sum(zs.push(z), zs.len() + 1int) == square_sum(zs, zs.len() as int) + z * z,
{
    assert forall|j: int| j <= zs.len() implies #[trigger] square_sum(zs.push(z), j) == square_sum(zs, j) by {
        lemma_square_sum_prefix(zs, z, j);
    }
    lemma_square_sum_prefix(zs, z, zs.len() as int);
    assert(zs.push(z)[zs.len() as int] == z);
}

proof fn lemma_square_sum_prefix(zs: Seq<int>, z: int, j: int)
    requires
        j <= zs.len(),
    ensures
        square_sum(zs.push(z), j) == square_sum(zs, j),
    decreases j,
{
    if j > 0 {
        lemma_square_sum_prefix(zs, z, j - 1);
    }
}

/// Taking a multiple of the divisor away moves the quotient and keeps the
/// remainder.
proof fn lemma_sub_multiple(c: int, q: int, d: int)
    requires
        d > 0,
    ensures
        (c - d * q) / d == c / d - q,
        (c - d * q) % d == c % d,
        c - d * (c / d) == c % d,
{
    vstd::arithmetic::div_mod::lemma_fundamental_div_mod(c, d);
    vstd::arithmetic::div_mod::lemma_mod_bound(c, d);
    assert(c - d * q == (c / d - q) * d + c % d) by (nonlinear_arith)
        requires
            c == d * (c / d) + c % d,
    ;
    vstd::arithmetic::div_mod::lemma_fundamental_div_mod_converse(c - d * q, d, c / d - q, c % d);
}

} // verus!
