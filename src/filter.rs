//! The biquad filters of the K-weighting pre-filter.
use vstd::prelude::*;

use crate::fixed::{
    div_toward_zero, saturate, trunc_div, COEF_ONE, COEF_ONE_SQUARED, SIGNAL_LIMIT,
};

verus! {

/// Shelf gain `10^(gain_db / 20)` of the stage 1 filter, scaled by `COEF_ONE`.
pub const SHELF_GAIN: i64 = 114201537239085176;

/// `1 / Q` of the stage 1 filter, scaled by `COEF_ONE`.
pub const SHELF_INVERSE_Q: i64 = 101894962199405301;

/// `Vb / Q` of the stage 1 filter, scaled by `COEF_ONE`.
pub const SHELF_BAND_OVER_Q: i64 = 128257321605649537;

/// `1 / Q` of the stage 2 filter, scaled by `COEF_ONE`.
pub const PASS_INVERSE_Q: i64 = 144020987598685744;

/// A second-order IIR filter in direct form I.
///
/// The coefficients are scaled by `COEF_ONE` (`a0` is implicitly 1.0);
/// the four state samples hold the last two inputs and outputs.
#[derive(Clone, Copy, PartialEq, Eq, Debug)]
pub struct Filter {
    pub b0: i64,
    pub b1: i64,
    pub b2: i64,
    pub a1: i64,
    pub a2: i64,
    pub x1: i64,
    pub x2: i64,
    pub y1: i64,
    pub y2: i64,
}

/// The value `v` fits the signal range of the filters.
pub open spec fn in_signal_range(v: int) -> bool {
    -SIGNAL_LIMIT <= v <= SIGNAL_LIMIT
}

/// `1 + K/Q + K^2`, scaled by `COEF_ONE * COEF_ONE`.
pub open spec fn design_sum(inv_q: int, k: int) -> int {
    COEF_ONE * COEF_ONE + inv_q * k + k * k
}

/// The normalising coefficient `a0 = 1 + K/Q + K^2`, scaled by `COEF_ONE`,
/// for a tangent `k` and an inverse quality `inv_q`, both scaled by `COEF_ONE`.
pub open spec fn design_a0(inv_q: int, k: int) -> int {
    design_sum(inv_q, k) / (COEF_ONE as int)
}

/// `a1 = 2 (K^2 - 1) / a0`.
pub open spec fn design_a1(inv_q: int, k: int) -> int {
    trunc_div(2 * (k * k - COEF_ONE * COEF_ONE), design_a0(inv_q, k))
}

/// `a2 = (1 - K/Q + K^2) / a0`.
pub open spec fn design_a2(inv_q: int, k: int) -> int {
    trunc_div(COEF_ONE * COEF_ONE - inv_q * k + k * k, design_a0(inv_q, k))
}

/// The stage 1 (high-shelf) filter for tangent `k = tan(pi f0 / fs)`
/// scaled by `COEF_ONE`, at rest.
pub open spec fn shelf_design(k: int) -> Filter {
    let a0 = design_a0(SHELF_INVERSE_Q as int, k);
    Filter {
        b0: trunc_div(SHELF_GAIN * COEF_ONE + SHELF_BAND_OVER_Q * k + k * k, a0) as i64,
        b1: trunc_div(2 * (k * k - SHELF_GAIN * COEF_ONE), a0) as i64,
        b2: trunc_div(SHELF_GAIN * COEF_ONE - SHELF_BAND_OVER_Q * k + k * k, a0) as i64,
        a1: design_a1(SHELF_INVERSE_Q as int, k) as i64,
        a2: design_a2(SHELF_INVERSE_Q as int, k) as i64,
        x1: 0,
        x2: 0,
        y1: 0,
        y2: 0,
    }
}

/// The stage 2 (high-pass) filter for tangent `k = tan(pi f0 / fs)`
/// scaled by `COEF_ONE`, at rest.
pub open spec fn pass_design(k: int) -> Filter {
    Filter {
        b0: COEF_ONE,
        b1: (-2 * COEF_ONE) as i64,
        b2: COEF_ONE,
        a1: design_a1(PASS_INVERSE_Q as int, k) as i64,
        a2: design_a2(PASS_INVERSE_Q as int, k) as i64,
        x1: 0,
        x2: 0,
        y1: 0,
        y2: 0,
    }
}

/// The tangents that the fixed-point design accepts: every non-negative
/// one the format holds (`K < 128`), that is every sample rate above twice
/// the filter's corner frequency. A negative tangent (a corner at or above
/// the Nyquist frequency) would give an unstable filter.
pub open spec fn tangent_in_range(k: int) -> bool {
    0 <= k <= i64::MAX
}

/// The state after `xs` has been fed to `f`, one sample after another.
pub open spec fn state_after(f: Filter, xs: Seq<int>) -> Filter
    decreases xs.len(),
{
    if xs.len() == 0 {
        f
    } else {
        state_after(f, xs.drop_last()).next(xs.last())
    }
}

/// The outputs that `f` gives for the inputs `xs`, one for each.
pub open spec fn filtered(f: Filter, xs: Seq<int>) -> Seq<int>
    decreases xs.len(),
{
    if xs.len() == 0 {
        Seq::empty()
    } else {
        filtered(f, xs.drop_last()).push(state_after(f, xs.drop_last()).output(xs.last()))
    }
}

/// Feeding one more input extends the state and the outputs by one step.
pub proof fn lemma_filtered_push(f: Filter, xs: Seq<int>, x: int)
    ensures
        state_after(f, xs.push(x)) == state_after(f, xs).next(x),
        filtered(f, xs.push(x)) == filtered(f, xs).push(state_after(f, xs).output(x)),
{
    assert(xs.push(x).drop_last() =~= xs);
}

/// Every output of a filter lies in the signal range.
pub proof fn lemma_filtered_in_range(f: Filter, xs: Seq<int>)
    ensures
        filtered(f, xs).len() == xs.len(),
        forall|i: int| 0 <= i < xs.len() ==> in_signal_range(#[trigger] filtered(f, xs)[i]),
    decreases xs.len(),
{
    if xs.len() > 0 {
        lemma_filtered_in_range(f, xs.drop_last());
    }
}

impl Filter {
    /// The state samples lie in the signal range.
    pub open spec fn wf(&self) -> bool {
        &&& in_signal_range(self.x1 as int)
        &&& in_signal_range(self.x2 as int)
        &&& in_signal_range(self.y1 as int)
        &&& in_signal_range(self.y2 as int)
    }

    /// `b0 x0 + b1 x1 + b2 x2 - a1 y1 - a2 y2`, scaled by `COEF_ONE * SAMPLE_ONE`.
    pub open spec fn accumulate(&self, x0: int) -> int {
        self.b0 * x0 + self.b1 * self.x1 + self.b2 * self.x2 - self.a1 * self.y1 - self.a2
            * self.y2
    }

    /// The output for input `x0`: the accumulated value brought back to the
    /// sample scale, rounded toward zero and saturated.
    pub open spec fn output(&self, x0: int) -> int {
        saturate(trunc_div(self.accumulate(x0), COEF_ONE as int))
    }

    /// The filter after input `x0`: both delay lines shifted by one.
    pub open spec fn next(&self, x0: int) -> Filter {
        Filter {
            x2: self.x1,
            x1: x0 as i64,
            y2: self.y1,
            y1: self.output(x0) as i64,
            ..*self
        }
    }

    /// Stage 1 of the pre-filter (high shelf, head effects), for the tangent
    /// `tan(pi f0 / fs)` of its corner frequency, scaled by `COEF_ONE`.
    pub fn high_shelf(tangent: i64) -> (f: Filter)
        requires
            tangent_in_range(tangent as int),
        ensures
            f == shelf_design(tangent as int),
            f.wf(),
    {
        let k = tangent as i128;
        let one = COEF_ONE as i128;
        let gain = SHELF_GAIN as i128;
        let band = SHELF_BAND_OVER_Q as i128;
        let ghost inv_q = SHELF_INVERSE_Q as int;
        proof {
            lemma_design_bounds(inv_q, k as int);
            lemma_scaled_tangent(band as int, k as int);
            assert(band * k <= 2 * (inv_q * k)) by (nonlinear_arith)
                requires
                    band <= 2 * inv_q,
                    k >= 0,
            ;
        }
        let a0 = design_a0_exec(SHELF_INVERSE_Q as i128, k);
        let kk = k * k;
        proof {
            lemma_quotient_fits(gain * one + band * k + kk, inv_q, k as int);
            lemma_quotient_fits(2 * (kk - gain * one), inv_q, k as int);
            lemma_quotient_fits(gain * one - band * k + kk, inv_q, k as int);
        }
        let b0 = div_toward_zero(gain * one + band * k + kk, a0);
        let b1 = div_toward_zero(2 * (kk - gain * one), a0);
        let b2 = div_toward_zero(gain * one - band * k + kk, a0);
        let (a1, a2) = design_feedback(SHELF_INVERSE_Q as i128, k);
        Filter {
            b0: b0 as i64,
            b1: b1 as i64,
            b2: b2 as i64,
            a1,
            a2,
            x1: 0,
            x2: 0,
            y1: 0,
            y2: 0,
        }
    }

    /// Stage 2 of the pre-filter (high pass), for the tangent
    /// `tan(pi f0 / fs)` of its corner frequency, scaled by `COEF_ONE`.
    pub fn high_pass(tangent: i64) -> (f: Filter)
        requires
            tangent_in_range(tangent as int),
        ensures
            f == pass_design(tangent as int),
            f.wf(),
    {
        proof {
            lemma_design_bounds(PASS_INVERSE_Q as int, tangent as int);
        }
        let (a1, a2) = design_feedback(PASS_INVERSE_Q as i128, tangent as i128);
        Filter {
            b0: COEF_ONE,
            b1: -2 * COEF_ONE,
            b2: COEF_ONE,
            a1,
            a2,
            x1: 0,
            x2: 0,
            y1: 0,
            y2: 0,
        }
    }

    /// Feed the next input sample, get the next output sample.
    pub fn apply(&mut self, x0: i64) -> (y0: i64)
        requires
            old(self).wf(),
            in_signal_range(x0 as int),
        ensures
            y0 == old(self).output(x0 as int),
            *final(self) == old(self).next(x0 as int),
            final(self).wf(),
    {
        proof {
            lemma_product_fits(self.b0 as int, x0 as int);
            lemma_product_fits(self.b1 as int, self.x1 as int);
            lemma_product_fits(self.b2 as int, self.x2 as int);
            lemma_product_fits(self.a1 as int, self.y1 as int);
            lemma_product_fits(self.a2 as int, self.y2 as int);
        }
        let acc: i128 = (self.b0 as i128) * (x0 as i128) + (self.b1 as i128) * (self.x1 as i128)
            + (self.b2 as i128) * (self.x2 as i128) - (self.a1 as i128) * (self.y1 as i128) - (
        self.a2 as i128) * (self.y2 as i128);
        let scaled = div_toward_zero(acc, COEF_ONE as i128);
        let y0: i64 = if scaled > SIGNAL_LIMIT as i128 {
            SIGNAL_LIMIT
        } else if scaled < -(SIGNAL_LIMIT as i128) {
            -SIGNAL_LIMIT
        } else {
            scaled as i64
        };
        self.x2 = self.x1;
        self.x1 = x0;
        self.y2 = self.y1;
        self.y1 = y0;
        y0
    }
}

/// A coefficient times a signal value stays far inside `i128`.
proof fn lemma_product_fits(c: int, v: int)
    requires
        i64::MIN <= c <= i64::MAX,
        in_signal_range(v),
    ensures
        -0x4_0000_0000_0000_0000_0000_0000_0000 <= c * v <= 0x4_0000_0000_0000_0000_0000_0000_0000,
{
    assert(-0x4_0000_0000_0000_0000_0000_0000_0000 <= c * v <= 0x4_0000_0000_0000_0000_0000_0000_0000)
        by (nonlinear_arith)
        requires
            -0x8000_0000_0000_0000 <= c <= 0x8000_0000_0000_0000,
            -0x8000_0000_0000 <= v <= 0x8000_0000_0000,
    ;
}

/// A constant of at most `2.0` times a tangent stays far inside `i128`.
proof fn lemma_scaled_tangent(c: int, k: int)
    requires
        0 <= c <= 2 * COEF_ONE,
        tangent_in_range(k),
    ensures
        0 <= c * k <= 2 * COEF_ONE * i64::MAX,
{
    assert(0 <= c * k <= 0x200_0000_0000_0000 * 0x7fff_ffff_ffff_ffff) by (nonlinear_arith)
        requires
            0 <= c <= 0x200_0000_0000_0000,
            0 <= k <= 0x7fff_ffff_ffff_ffff,
    ;
}

/// Bounds on the terms of the coefficient design.
proof fn lemma_design_bounds(inv_q: int, k: int)
    requires
        0 <= inv_q <= 2 * COEF_ONE,
        tangent_in_range(k),
    ensures
        0 <= k * k <= i64::MAX * i64::MAX,
        0 <= inv_q * k <= 2 * COEF_ONE * i64::MAX,
        COEF_ONE * COEF_ONE <= design_sum(inv_q, k) <= COEF_ONE * COEF_ONE + 2 * COEF_ONE
            * i64::MAX + i64::MAX * i64::MAX,
        design_a0(inv_q, k) >= COEF_ONE,
        design_sum(inv_q, k) < 2 * COEF_ONE * design_a0(inv_q, k),
{
    let one = COEF_ONE as int;
    assert(0 <= k * k <= 0x7fff_ffff_ffff_ffff * 0x7fff_ffff_ffff_ffff) by (nonlinear_arith)
        requires
            0 <= k <= 0x7fff_ffff_ffff_ffff,
    ;
    lemma_scaled_tangent(inv_q, k);
    let n = design_sum(inv_q, k);
    let a0 = n / one;
    assert(one * one / one == one) by (nonlinear_arith)
        requires
            one > 0,
    ;
    vstd::arithmetic::div_mod::lemma_div_is_ordered(one * one, n, one);
    vstd::arithmetic::div_mod::lemma_fundamental_div_mod(n, one);
    vstd::arithmetic::div_mod::lemma_mod_bound(n, one);
    assert(n < 2 * one * a0) by (nonlinear_arith)
        requires
            n == one * a0 + n % one,
            n % one < one,
            a0 >= one,
            one > 0,
    ;
}

/// A numerator of the design of at most four times `1 + K/Q + K^2`,
/// divided by `a0`, fits a coefficient.
proof fn lemma_quotient_fits(n: int, inv_q: int, k: int)
    requires
        0 <= inv_q <= 2 * COEF_ONE,
        tangent_in_range(k),
        -4 * design_sum(inv_q, k) <= n <= 4 * design_sum(inv_q, k),
    ensures
        i64::MIN <= trunc_div(n, design_a0(inv_q, k)) <= i64::MAX,
{
    lemma_design_bounds(inv_q, k);
    let one = COEF_ONE as int;
    let a0 = design_a0(inv_q, k);
    let m: int = if n >= 0 {
        n
    } else {
        -n
    };
    assert(m <= 8 * one * a0);
    vstd::arithmetic::div_mod::lemma_div_is_ordered(m, (8 * one) * a0, a0);
    vstd::arithmetic::div_mod::lemma_div_by_multiple(8 * one, a0);
    vstd::arithmetic::div_mod::lemma_div_pos_is_pos(m, a0);
}

/// `a0` of the design, scaled by `COEF_ONE`.
fn design_a0_exec(inv_q: i128, k: i128) -> (a0: i128)
    requires
        0 <= inv_q <= 2 * COEF_ONE,
        tangent_in_range(k as int),
    ensures
        a0 == design_a0(inv_q as int, k as int),
        a0 >= COEF_ONE,
{
    proof {
        lemma_design_bounds(inv_q as int, k as int);
    }
    (COEF_ONE_SQUARED + inv_q * k + k * k) / (COEF_ONE as i128)
}

/// The feedback coefficients `(a1, a2)` of the design.
fn design_feedback(inv_q: i128, k: i128) -> (r: (i64, i64))
    requires
        0 <= inv_q <= 2 * COEF_ONE,
        tangent_in_range(k as int),
    ensures
        r.0 == design_a1(inv_q as int, k as int),
        r.1 == design_a2(inv_q as int, k as int),
{
    proof {
        lemma_design_bounds(inv_q as int, k as int);
    }
    let a0 = design_a0_exec(inv_q, k);
    let kk = k * k;
    proof {
        lemma_quotient_fits(2 * (kk - COEF_ONE_SQUARED), inv_q as int, k as int);
        lemma_quotient_fits(COEF_ONE_SQUARED - inv_q * k + kk, inv_q as int, k as int);
    }
    let a1 = div_toward_zero(2 * (kk - COEF_ONE_SQUARED), a0);
    let a2 = div_toward_zero(COEF_ONE_SQUARED - inv_q * k + kk, a0);
    (a1 as i64, a2 as i64)
}

} // verus!
