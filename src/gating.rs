//! Window powers, the stereo reduction and the gated integration.
use vstd::prelude::*;

use crate::error::LoudnessError;

verus! {

/// Four times the absolute gate `Power::from_lkfs(-70)`, in units of
/// `POWER_ONE`, rounded down: a block whose four window powers sum to more
/// than this is louder than -70 LKFS.
pub const ABSOLUTE_GATE_BLOCK_SUM: u128 = 515655;

/// The mean of the squares of the K-weighted samples in a window of time,
/// in units of `POWER_ONE` (full scale).
///
/// The power can be for a single channel or a weighted sum over channels;
/// the latter can exceed full scale.
#[derive(Clone, Copy, PartialEq, Eq, PartialOrd, Ord, Debug)]
pub struct Power(pub u64);

/// The sum of a sequence of integers.
pub open spec fn seq_sum(s: Seq<int>) -> int
    decreases s.len(),
{
    if s.len() == 0 {
        0
    } else {
        seq_sum(s.drop_last()) + s.last()
    }
}

/// The sum of the four windows that make up the 400 ms block starting at
/// window `k`: four times the block's power.
pub open spec fn block_sum(w: Seq<Power>, k: int) -> int {
    w[k].0 + w[k + 1].0 + w[k + 2].0 + w[k + 3].0
}

/// The number of overlapping 400 ms blocks in `w`.
pub open spec fn block_count(w: Seq<Power>) -> nat {
    if w.len() >= 4 {
        (w.len() - 3) as nat
    } else {
        0
    }
}

/// The block sums of `w`, in order.
pub open spec fn block_sums(w: Seq<Power>) -> Seq<int> {
    Seq::new(block_count(w), |k: int| block_sum(w, k))
}

/// The block sums that pass the absolute gate.
pub open spec fn absolute_gated(w: Seq<Power>) -> Seq<int> {
    block_sums(w).filter(|b: int| b > ABSOLUTE_GATE_BLOCK_SUM)
}

/// A block passes the relative gate of the absolute-gated blocks `s1` when
/// its power exceeds a tenth (10 LU below) of their mean power.
pub open spec fn above_relative_gate(b: int, s1: Seq<int>) -> bool {
    10 * b * s1.len() > seq_sum(s1)
}

/// The block sums that pass both gates.
pub open spec fn relative_gated(w: Seq<Power>) -> Seq<int> {
    let s1 = absolute_gated(w);
    s1.filter(|b: int| above_relative_gate(b, s1))
}

/// The integrated power of the windows `w`: the mean power of the blocks
/// that pass both gates, rounded down; zero where no block passes.
pub open spec fn gated_power(w: Seq<Power>) -> int {
    let s2 = relative_gated(w);
    if s2.len() == 0 {
        0
    } else {
        seq_sum(s2) / (4 * s2.len() as int)
    }
}

/// Every window of `left` added to the window of `right` at the same index
/// fits a power.
pub open spec fn sums_fit(left: Seq<Power>, right: Seq<Power>) -> bool {
    forall|k: int|
        0 <= k < left.len() && 0 <= k < right.len() ==> #[trigger] left[k].0 + right[k].0
            <= u64::MAX
}

/// Reduce the powers of the two channels of a stereo signal to one sequence,
/// by the unnormalised sum with unit weight per channel.
pub fn reduce_stereo(left: &[Power], right: &[Power]) -> (r: Result<Vec<Power>, LoudnessError>)
    requires
        sums_fit(left@, right@),
    ensures
        r is Err <==> left@.len() != right@.len(),
        r is Err ==> r == Err::<Vec<Power>, LoudnessError>(LoudnessError::ChannelLengthMismatch),
        r matches Ok(v) ==> v@.len() == left@.len() && forall|k: int|
            0 <= k < v@.len() ==> #[trigger] v@[k].0 == left@[k].0 + right@[k].0,
{
    if left.len() != right.len() {
        return Err(LoudnessError::ChannelLengthMismatch);
    }
    let mut result: Vec<Power> = Vec::with_capacity(left.len());
    let mut i: usize = 0;
    while i < left.len()
        invariant
            left@.len() == right@.len(),
            sums_fit(left@, right@),
            i <= left@.len(),
            result@.len() == i,
            forall|k: int| 0 <= k < i ==> #[trigger] result@[k].0 == left@[k].0 + right@[k].0,
        decreases left@.len() - i,
    {
        assert(left@[i as int].0 + right@[i as int].0 <= u64::MAX);
        result.push(Power(left[i].0 + right[i].0));
        i = i + 1;
    }
    Ok(result)
}

/// `x` exceeds `s / c` (rounded down) exactly when `x c` exceeds `s`.
proof fn lemma_above_quotient(x: int, s: int, c: int)
    requires
        c > 0,
        s >= 0,
    ensures
        (x > s / c) <==> (x * c > s),
{
    let q = s / c;
    vstd::arithmetic::div_mod::lemma_fundamental_div_mod(s, c);
    assert(0 <= s % c < c) by {
        vstd::arithmetic::div_mod::lemma_mod_bound(s, c);
    }
    if x > q {
        assert(x * c >= q * c + c) by (nonlinear_arith)
            requires
                x >= q + 1,
                c > 0,
        ;
    } else {
        assert(x * c <= q * c) by (nonlinear_arith)
            requires
                x <= q,
                c > 0,
        ;
    }
}

/// A sum of values in `[0, m]` lies in `[0, len * m]`.
proof fn lemma_sum_bounds(s: Seq<int>, m: int)
    requires
        m >= 0,
        forall|i: int| 0 <= i < s.len() ==> 0 <= #[trigger] s[i] <= m,
    ensures
        0 <= seq_sum(s) <= s.len() * m,
    decreases s.len(),
{
    if s.len() > 0 {
        lemma_sum_bounds(s.drop_last(), m);
        assert(s.len() * m == (s.len() - 1) * m + m) by (nonlinear_arith);
    }
}

/// Extending a prefix by one element extends its filtered form accordingly.
proof fn lemma_filter_take(s: Seq<int>, k: int, pred: spec_fn(int) -> bool)
    requires
        0 <= k < s.len(),
    ensures
        s.take(k + 1).filter(pred) == (if pred(s[k]) {
            s.take(k).filter(pred).push(s[k])
        } else {
            s.take(k).filter(pred)
        }),
{
    reveal(Seq::filter);
    assert(s.take(k + 1).drop_last() =~= s.take(k));
}

/// A filtered sequence is no longer than the sequence, and its elements
/// keep the sequence's bounds.
proof fn lemma_filter_within(s: Seq<int>, pred: spec_fn(int) -> bool, lo: int, hi: int)
    requires
        forall|i: int| 0 <= i < s.len() ==> lo <= #[trigger] s[i] <= hi,
    ensures
        s.filter(pred).len() <= s.len(),
        forall|i: int| 0 <= i < s.filter(pred).len() ==> lo <= #[trigger] s.filter(pred)[i] <= hi,
    decreases s.len(),
{
    reveal(Seq::filter);
    if s.len() > 0 {
        lemma_filter_within(s.drop_last(), pred, lo, hi);
    }
}

/// `n` silent windows.
pub open spec fn silence(n: nat) -> Seq<Power> {
    Seq::new(n, |i: int| Power(0))
}

/// Appending silence to windows that already end in three silent windows
/// leaves the integrated power unchanged: every block the silence adds is
/// silent and falls to the absolute gate. (Silence right after sound is not
/// covered: the blocks that straddle the boundary carry part of the sound.)
pub proof fn lemma_trailing_silence(w: Seq<Power>, extra: nat)
    requires
        w.len() >= 3,
        w[w.len() - 1].0 == 0,
        w[w.len() - 2].0 == 0,
        w[w.len() - 3].0 == 0,
    ensures
        gated_power(w + silence(extra)) == gated_power(w),
{
    let w2 = w + silence(extra);
    let zeros = Seq::new(extra, |i: int| 0int);
    assert(block_sums(w2) =~= block_sums(w) + zeros);
    let abs_pred = |b: int| b > ABSOLUTE_GATE_BLOCK_SUM;
    lemma_filter_ignores_zeros(block_sums(w), extra, abs_pred);
    assert(absolute_gated(w2) == absolute_gated(w));
}

/// Filtering away zeros appended to `s` gives the filtered `s`.
proof fn lemma_filter_ignores_zeros(s: Seq<int>, extra: nat, pred: spec_fn(int) -> bool)
    requires
        !pred(0),
    ensures
        (s + Seq::new(extra, |i: int| 0int)).filter(pred) == s.filter(pred),
    decreases extra,
{
    reveal(Seq::filter);
    let t = s + Seq::new(extra, |i: int| 0int);
    if extra == 0 {
        assert(t =~= s);
    } else {
        lemma_filter_ignores_zeros(s, (extra - 1) as nat, pred);
        assert(t.drop_last() =~= s + Seq::new((extra - 1) as nat, |i: int| 0int));
        assert(t.last() == 0);
    }
}

/// Perform gating for a BS.1770-4 integrated loudness measurement.
///
/// The windows are combined into overlapping 400 ms blocks; blocks at or
/// below -70 LKFS are dropped (absolute gate), then blocks more than 10 LU
/// below the mean of the rest (relative gate). The result is the mean power
/// of the remaining blocks, or `Power(0)` (-infinity LKFS) where there are
/// fewer than four windows or no block passes the gates.
///
/// The sums are exact in 128 bits. The bound on the length is one no slice
/// of powers can reach (it would take more than `isize::MAX` bytes).
pub fn gated_mean(windows_100ms: &[Power]) -> (r: Power)
    requires
        windows_100ms@.len() < 0x4000_0000_0000_0000,
    ensures
        r.0 == gated_power(windows_100ms@),
{
    let w = Ghost(windows_100ms@);
    let n: usize = if windows_100ms.len() >= 4 {
        windows_100ms.len() - 3
    } else {
        0
    };
    let ghost blocks = block_sums(w@);
    let ghost abs_pred = |b: int| b > ABSOLUTE_GATE_BLOCK_SUM;
    let ghost block_max: int = 4 * u64::MAX;

    // Stage 1: the absolute gate.
    let mut gating_blocks: Vec<u128> = Vec::with_capacity(n);
    let mut sum_abs: u128 = 0;
    let mut k: usize = 0;
    while k < n
        invariant
            w@ == windows_100ms@,
            n == block_count(w@),
            n < 0x4000_0000_0000_0000,
            blocks == block_sums(w@),
            block_max == 4 * u64::MAX,
            abs_pred == (|b: int| b > ABSOLUTE_GATE_BLOCK_SUM),
            k <= n,
            gating_blocks@.len() == blocks.take(k as int).filter(abs_pred).len(),
            forall|i: int|
                0 <= i < gating_blocks@.len() ==> #[trigger] gating_blocks@[i] as int == blocks.take(
                    k as int,
                ).filter(abs_pred)[i],
            sum_abs == seq_sum(blocks.take(k as int).filter(abs_pred)),
        decreases n - k,
    {
        let b: u128 = windows_100ms[k].0 as u128 + windows_100ms[k + 1].0 as u128
            + windows_100ms[k + 2].0 as u128 + windows_100ms[k + 3].0 as u128;
        proof {
            assert(b as int == blocks[k as int]);
            lemma_filter_take(blocks, k as int, abs_pred);
            let prev = blocks.take(k as int).filter(abs_pred);
            assert forall|i: int| 0 <= i < blocks.take(k as int).len() implies 0 <= #[trigger] blocks.take(
                k as int,
            )[i] <= block_max by {}
            lemma_filter_within(blocks.take(k as int), abs_pred, 0, block_max);
            lemma_sum_bounds(prev, block_max);
            assert(prev.len() * block_max <= 0x4000_0000_0000_0000 * block_max) by (
            nonlinear_arith)
                requires
                    prev.len() <= 0x4000_0000_0000_0000,
                    block_max >= 0,
            ;
        }
        if b > ABSOLUTE_GATE_BLOCK_SUM {
            gating_blocks.push(b);
            sum_abs = sum_abs + b;
            proof {
                let prev = blocks.take(k as int).filter(abs_pred);
                assert(prev.push(b as int).drop_last() =~= prev);
            }
        }
        k = k + 1;
    }
    assert(blocks.take(n as int) =~= blocks);
    let ghost s1 = absolute_gated(w@);
    let count_abs: usize = gating_blocks.len();

    // Stage 2: the relative gate, 10 LU below the absolute-gated mean.
    let ghost rel_pred = |b: int| above_relative_gate(b, s1);
    let mut sum_rel: u128 = 0;
    let mut count_rel: usize = 0;
    let mut i: usize = 0;
    proof {
        assert forall|j: int| 0 <= j < blocks.len() implies 0 <= #[trigger] blocks[j] <= block_max by {}
        lemma_filter_within(blocks, abs_pred, 0, block_max);
    }
    while i < count_abs
        invariant
            w@ == windows_100ms@,
            s1 == absolute_gated(w@),
            rel_pred == (|b: int| above_relative_gate(b, s1)),
            count_abs == gating_blocks@.len() == s1.len(),
            count_abs < 0x4000_0000_0000_0000,
            forall|j: int| 0 <= j < count_abs ==> #[trigger] gating_blocks@[j] as int == s1[j],
            forall|j: int| 0 <= j < count_abs ==> 0 <= #[trigger] s1[j] <= block_max,
            block_max == 4 * u64::MAX,
            sum_abs == seq_sum(s1),
            i <= count_abs,
            count_rel == s1.take(i as int).filter(rel_pred).len(),
            sum_rel == seq_sum(s1.take(i as int).filter(rel_pred)),
            count_rel <= i,
        decreases count_abs - i,
    {
        let b = gating_blocks[i];
        proof {
            lemma_filter_take(s1, i as int, rel_pred);
            let prev = s1.take(i as int).filter(rel_pred);
            assert forall|j: int| 0 <= j < s1.take(i as int).len() implies 0 <= #[trigger] s1.take(
                i as int,
            )[j] <= block_max by {}
            lemma_filter_within(s1.take(i as int), rel_pred, 0, block_max);
            lemma_sum_bounds(prev, block_max);
            assert(prev.len() * block_max <= 0x4000_0000_0000_0000 * block_max) by (
            nonlinear_arith)
                requires
                    prev.len() <= 0x4000_0000_0000_0000,
                    block_max >= 0,
            ;
            lemma_sum_bounds(s1, block_max);
            lemma_above_quotient(10 * b, sum_abs as int, count_abs as int);
            assert(b as int == s1[i as int]);
        }
        if 10 * b > sum_abs / (count_abs as u128) {
            sum_rel = sum_rel + b;
            count_rel = count_rel + 1;
            proof {
                let prev = s1.take(i as int).filter(rel_pred);
                assert(prev.push(b as int).drop_last() =~= prev);
            }
        }
        i = i + 1;
    }
    assert(s1.take(count_abs as int) =~= s1);
    if count_rel == 0 {
        Power(0)
    } else {
        let ghost s2 = relative_gated(w@);
        proof {
            lemma_filter_within(s1, rel_pred, 0, block_max);
            lemma_sum_bounds(s2, block_max);
            let d: int = 4 * s2.len() as int;
            assert(s2.len() * block_max == d * u64::MAX);
            vstd::arithmetic::div_mod::lemma_div_is_ordered(seq_sum(s2), d * u64::MAX, d);
            vstd::arithmetic::div_mod::lemma_div_by_multiple(u64::MAX as int, d);
            assert(u64::MAX * d == d * u64::MAX) by (nonlinear_arith);
        }
        Power((sum_rel / (4 * count_rel as u128)) as u64)
    }
}

} // verus!
