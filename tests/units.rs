use bs1770::{gated_mean, reduce_stereo, sample_from_pcm, ChannelLoudnessMeter, Filter, LoudnessError, Power};
use bs1770::{ABSOLUTE_GATE_BLOCK_SUM, COEF_ONE, POWER_ONE, SAMPLE_ONE, SIGNAL_LIMIT};

fn powers(values: &[u64]) -> Vec<Power> {
    values.iter().map(|&v| Power(v)).collect()
}

#[test]
fn gated_mean_of_fewer_than_four_windows_is_zero() {
    assert_eq!(gated_mean(&[]), Power(0));
    assert_eq!(gated_mean(&powers(&[POWER_ONE, POWER_ONE, POWER_ONE])), Power(0));
}

#[test]
fn gated_mean_of_silence_is_zero() {
    assert_eq!(gated_mean(&powers(&[0; 40])), Power(0));
}

#[test]
fn gated_mean_of_constant_power_is_that_power() {
    assert_eq!(gated_mean(&powers(&[POWER_ONE; 10])), Power(POWER_ONE));
}

#[test]
fn absolute_gate_is_strict() {
    let at_gate = (ABSOLUTE_GATE_BLOCK_SUM / 4) as u64;
    assert_eq!(at_gate, 128913);
    // Four windows summing to exactly the threshold: dropped.
    assert_eq!(gated_mean(&powers(&[at_gate, at_gate, at_gate, at_gate + 3])), Power(0));
    // One unit more: kept, and its mean power is the result.
    assert_eq!(gated_mean(&powers(&[at_gate, at_gate, at_gate, at_gate + 4])), Power(128914));
}

#[test]
fn relative_gate_drops_blocks_ten_lu_below_the_mean() {
    let q = 200_000;
    let loud = 100_000_000;
    let w = powers(&[q, q, q, q, 0, 0, 0, loud, loud, loud, loud]);
    // Block sums: 800e3, 600e3, 400e3, 200e3, 1e8, 2e8, 3e8, 4e8. The first
    // two pass the absolute gate but lie more than 10 LU below the mean of
    // the six that pass it; the mean of the last four is 2.5e8 / 4.
    assert_eq!(gated_mean(&w), Power(62_500_000));
}

#[test]
fn trailing_silent_windows_leave_the_gated_mean_unchanged() {
    let mut w = powers(&[300_000, 5_000_000, 4_000_000, 7_000_000, 0, 0, 0]);
    let before = gated_mean(&w);
    w.extend(powers(&[0; 25]));
    assert_eq!(gated_mean(&w), before);
    assert_ne!(before, Power(0));
}

#[test]
fn reduce_stereo_sums_the_channels() {
    let left = powers(&[1, 2, 3]);
    let right = powers(&[10, 20, 30]);
    assert_eq!(reduce_stereo(&left, &right), Ok(powers(&[11, 22, 33])));
}

#[test]
fn reduce_stereo_rejects_unequal_lengths() {
    let left = powers(&[1, 2, 3]);
    let right = powers(&[10, 20]);
    assert_eq!(reduce_stereo(&left, &right), Err(LoudnessError::ChannelLengthMismatch));
}

#[test]
fn meter_rejects_a_sample_rate_below_ten_hertz() {
    assert_eq!(ChannelLoudnessMeter::new(9, 0, 0).err(), Some(LoudnessError::SampleRateTooLow));
    assert!(ChannelLoudnessMeter::new(10, 0, 0).is_ok());
}

#[test]
fn meter_rejects_negative_tangents() {
    assert_eq!(ChannelLoudnessMeter::new(48_000, -1, 0).err(), Some(LoudnessError::TangentOutOfRange));
    assert_eq!(ChannelLoudnessMeter::new(48_000, 0, -1).err(), Some(LoudnessError::TangentOutOfRange));
    assert!(ChannelLoudnessMeter::new(48_000, COEF_ONE + 1, COEF_ONE + 1).is_ok());
    assert!(ChannelLoudnessMeter::new(48_000, i64::MAX, i64::MAX).is_ok());
}

#[test]
fn filter_design_holds_for_large_tangents() {
    // K = 64: the shelf keeps gain 1 at DC and Vh at Nyquist; the high pass
    // keeps (1, -2, 1) and a pole pair inside the unit circle.
    let k = 64 * COEF_ONE;
    let f = Filter::high_shelf(k);
    let one = COEF_ONE as f64;
    let (b0, b1, b2, a1, a2) = (f.b0 as f64 / one, f.b1 as f64 / one, f.b2 as f64 / one, f.a1 as f64 / one, f.a2 as f64 / one);
    assert!(((b0 + b1 + b2) / (1.0 + a1 + a2) - 1.0).abs() < 1e-6);
    let vh = 10.0_f64.powf(3.99984385397 / 20.0);
    assert!(((b0 - b1 + b2) / (1.0 - a1 + a2) - vh).abs() < 1e-6);
    assert!(a2.abs() < 1.0 && a1.abs() < 1.0 + a2);
    let g = Filter::high_pass(k);
    assert_eq!((g.b0, g.b1, g.b2), (COEF_ONE, -2 * COEF_ONE, COEF_ONE));
    let (a1, a2) = (g.a1 as f64 / one, g.a2 as f64 / one);
    assert!(a2.abs() < 1.0 && a1.abs() < 1.0 + a2);
}

#[test]
fn meter_discards_the_open_window() {
    let mut meter = ChannelLoudnessMeter::new(48_000, 0, 0).unwrap();
    meter.push(&vec![0; 4_800 * 3 + 100]);
    assert_eq!(meter.power_windows().len(), 3);
    meter.push(&vec![0; 4_700]);
    assert_eq!(meter.power_windows().len(), 4);
}

#[test]
fn meter_window_power_of_a_constant_signal() {
    // With zero tangents both filters reduce to a gain: Vh for the shelf,
    // 1 for the high pass. Half full scale then has power (Vh / 2)^2.
    let mut meter = ChannelLoudnessMeter::new(100, 0, 0).unwrap();
    meter.push(&vec![SAMPLE_ONE / 2; 30]);
    let windows = meter.into_windows();
    assert_eq!(windows.len(), 3);
    let vh = 10.0_f64.powf(3.99984385397 / 20.0);
    let expected = vh * vh / 4.0 * POWER_ONE as f64;
    for w in &windows {
        assert!((w.0 as f64 - expected).abs() < expected * 1e-6, "{} vs {}", w.0, expected);
    }
}

#[test]
fn filter_apply_follows_the_difference_equation() {
    let mut f = Filter::high_pass(0);
    // With K = 0: a1 = -2, a2 = 1, b = (1, -2, 1).
    assert_eq!((f.b0, f.b1, f.b2, f.a1, f.a2), (COEF_ONE, -2 * COEF_ONE, COEF_ONE, -2 * COEF_ONE, COEF_ONE));
    assert_eq!(f.apply(1_000), 1_000);
    assert_eq!(f.apply(0), 0);
    assert_eq!(f.apply(0), 0);
    let mut g = Filter::high_shelf(0);
    // With K = 0 the shelf has gain 1 at DC: b0 = b2 = Vh, b1 = -2 Vh.
    assert_eq!(g.b0, bs1770::filter::SHELF_GAIN);
    assert_eq!(
        g.apply(SAMPLE_ONE),
        (SAMPLE_ONE as i128 * bs1770::filter::SHELF_GAIN as i128 / COEF_ONE as i128) as i64
    );
}

#[test]
fn filter_output_saturates() {
    let mut f = Filter::high_shelf(COEF_ONE);
    let mut max = 0;
    for i in 0..64 {
        let x = if i % 2 == 0 { SIGNAL_LIMIT } else { -SIGNAL_LIMIT };
        max = max.max(f.apply(x).abs());
    }
    assert_eq!(max, SIGNAL_LIMIT);
}

#[test]
fn pcm_samples_scale_to_full_scale() {
    assert_eq!(sample_from_pcm(-32768, 16), Some(-SAMPLE_ONE));
    assert_eq!(sample_from_pcm(32767, 16), Some(32767 << 25));
    assert_eq!(sample_from_pcm(i32::MIN, 32), Some(-SAMPLE_ONE));
    assert_eq!(sample_from_pcm(-1, 1), Some(-SAMPLE_ONE));
    assert_eq!(sample_from_pcm(1, 1), None);
    assert_eq!(sample_from_pcm(40_000, 16), None);
    assert_eq!(sample_from_pcm(-8_388_608, 24), Some(-SAMPLE_ONE));
}
