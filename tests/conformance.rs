use bs1770::{gated_mean, reduce_stereo, ChannelLoudnessMeter, Filter, Power};
use bs1770::{COEF_ONE, POWER_ONE, SAMPLE_ONE};

const SHELF_CENTER_HZ: f64 = 1681.9744509555319;
const PASS_CENTER_HZ: f64 = 38.13547087613982;

/// `tan(pi f0 / fs)` in the coefficient format.
fn tangent(center_hz: f64, sample_rate_hz: f64) -> i64 {
    ((std::f64::consts::PI * center_hz / sample_rate_hz).tan() * COEF_ONE as f64).round() as i64
}

fn coefficient(c: i64) -> f64 {
    c as f64 / COEF_ONE as f64
}

fn meter_at(sample_rate_hz: u32) -> ChannelLoudnessMeter {
    let rate = sample_rate_hz as f64;
    ChannelLoudnessMeter::new(
        sample_rate_hz,
        tangent(SHELF_CENTER_HZ, rate),
        tangent(PASS_CENTER_HZ, rate),
    )
    .expect("a valid sample rate")
}

fn loudness_lkfs(power: Power) -> f64 {
    -0.691 + 10.0 * (power.0 as f64 / POWER_ONE as f64).log10()
}

fn append_pure_tone(
    samples: &mut Vec<i64>,
    sample_rate_hz: usize,
    frequency_hz: usize,
    duration_milliseconds: usize,
    amplitude_dbfs: f64,
) {
    let num_samples = (duration_milliseconds * sample_rate_hz) / 1000;
    samples.reserve(num_samples);
    let sample_duration_seconds = 1.0 / (sample_rate_hz as f64);
    let amplitude = 10.0_f64.powf(amplitude_dbfs / 20.0);
    for i in 0..num_samples {
        let time_seconds = i as f64 * sample_duration_seconds;
        let angle = std::f64::consts::PI * 2.0 * time_seconds * frequency_hz as f64;
        samples.push((angle.sin() * amplitude * SAMPLE_ONE as f64).round() as i64);
    }
}

fn assert_loudness_in_range_lkfs(power: Power, target_lkfs: f64, plusminus_lkfs: f64, context: &str) {
    let actual = loudness_lkfs(power);
    assert!(
        actual > target_lkfs - plusminus_lkfs,
        "Actual loudness of {:.1} LKFS too low for reference {:.1} ± {:.1} LKFS at {}",
        actual,
        target_lkfs,
        plusminus_lkfs,
        context,
    );
    assert!(
        actual < target_lkfs + plusminus_lkfs,
        "Actual loudness of {:.1} LKFS too high for reference {:.1} ± {:.1} LKFS at {}",
        actual,
        target_lkfs,
        plusminus_lkfs,
        context,
    );
}

/// The integrated power of a stereo signal with `samples` in both channels.
fn stereo_power(sample_rate_hz: u32, samples: &[i64]) -> Power {
    let mut meter = meter_at(sample_rate_hz);
    meter.push(samples);
    let windows_single = meter.into_windows();
    let windows_stereo = reduce_stereo(&windows_single, &windows_single).unwrap();
    gated_mean(&windows_stereo)
}

#[test]
fn filter_high_shelf_matches_spec() {
    let sample_rate_hz = 48_000.0;
    let f = Filter::high_shelf(tangent(SHELF_CENTER_HZ, sample_rate_hz));
    assert!((coefficient(f.a1) - -1.69065929318241).abs() < 1e-6);
    assert!((coefficient(f.a2) - 0.73248077421585).abs() < 1e-6);
    assert!((coefficient(f.b0) - 1.53512485958697).abs() < 1e-6);
    assert!((coefficient(f.b1) - -2.69169618940638).abs() < 1e-6);
    assert!((coefficient(f.b2) - 1.19839281085285).abs() < 1e-6);
}

#[test]
fn filter_low_pass_matches_spec() {
    let sample_rate_hz = 48_000.0;
    let f = Filter::high_pass(tangent(PASS_CENTER_HZ, sample_rate_hz));
    assert!((coefficient(f.a1) - -1.99004745483398).abs() < 1e-6);
    assert!((coefficient(f.a2) - 0.99007225036621).abs() < 1e-6);
    assert!((coefficient(f.b0) - 1.0).abs() < 1e-6);
    assert!((coefficient(f.b1) - -2.0).abs() < 1e-6);
    assert!((coefficient(f.b2) - 1.0).abs() < 1e-6);
}

#[test]
fn loudness_matches_tech_3341_2016_case_1_and_2() {
    let sample_rates = [44_100, 48_000, 96_000, 192_000];
    let amplitudes = [-23.0, -33.0];
    for &sample_rate_hz in &sample_rates {
        for &amplitude_dbfs in &amplitudes {
            let mut samples = Vec::new();
            append_pure_tone(&mut samples, sample_rate_hz, 1_000, 20_000, amplitude_dbfs);
            let power = stereo_power(sample_rate_hz as u32, &samples);
            assert_loudness_in_range_lkfs(
                power,
                amplitude_dbfs,
                0.1,
                &format!("sample_rate: {} Hz, amplitude: {:.1} dBFS", sample_rate_hz, amplitude_dbfs),
            );
        }
    }
}

#[test]
fn loudness_matches_tech_3341_2016_case_3_and_4_and_5() {
    let sample_rates = [44_100, 48_000, 96_000, 192_000];
    let tones_duration_milliseconds_amplitude_dbfs = [
        &[(10_000, -36.0), (60_000, -23.0), (10_000, -36.0)][..],
        &[
            (10_000, -72.0),
            (10_000, -36.0),
            (60_000, -23.0),
            (10_000, -36.0),
            (10_000, -72.0),
        ][..],
        &[(20_000, -26.0), (20_100, -20.0), (20_000, -26.0)][..],
    ];
    for &sample_rate_hz in &sample_rates {
        for (i, &test_case) in tones_duration_milliseconds_amplitude_dbfs.iter().enumerate() {
            let mut samples = Vec::new();
            for &(duration_milliseconds, amplitude_dbfs) in test_case.iter() {
                append_pure_tone(&mut samples, sample_rate_hz, 1_000, duration_milliseconds, amplitude_dbfs);
            }
            let power = stereo_power(sample_rate_hz as u32, &samples);
            assert_loudness_in_range_lkfs(
                power,
                -23.0,
                0.1,
                &format!("sample_rate: {} Hz, case {}", sample_rate_hz, i + 3),
            );
        }
    }
}

#[test]
fn meter_accepts_rates_between_two_and_four_times_the_shelf_corner() {
    for &sample_rate_hz in &[5_000_u32, 5_512, 6_000] {
        let rate = sample_rate_hz as f64;
        let k = (std::f64::consts::PI * SHELF_CENTER_HZ / rate).tan();
        assert!(k > 1.0);
        let f = Filter::high_shelf(tangent(SHELF_CENTER_HZ, rate));
        let q = 0.7071752369554193;
        let vh = 10.0_f64.powf(3.99984385397 / 20.0);
        let vb = vh.powf(0.499666774155);
        let a0 = 1.0 + k / q + k * k;
        assert!((coefficient(f.b0) - (vh + vb * k / q + k * k) / a0).abs() < 1e-6);
        assert!((coefficient(f.b1) - 2.0 * (k * k - vh) / a0).abs() < 1e-6);
        assert!((coefficient(f.b2) - (vh - vb * k / q + k * k) / a0).abs() < 1e-6);
        assert!((coefficient(f.a1) - 2.0 * (k * k - 1.0) / a0).abs() < 1e-6);
        assert!((coefficient(f.a2) - (1.0 - k / q + k * k) / a0).abs() < 1e-6);
        let mut meter = meter_at(sample_rate_hz);
        let mut samples = Vec::new();
        append_pure_tone(&mut samples, sample_rate_hz as usize, 1_000, 1_000, -23.0);
        meter.push(&samples);
        assert_eq!(meter.power_windows().len(), 10);
    }
    assert!(ChannelLoudnessMeter::new(100, tangent(SHELF_CENTER_HZ, 100.0), tangent(PASS_CENTER_HZ, 100.0)).is_err());
    assert!(ChannelLoudnessMeter::new(120, 0, tangent(PASS_CENTER_HZ, 120.0)).is_ok());
}

#[test]
fn appended_silence_leaves_loudness_unchanged() {
    let sample_rate_hz = 48_000;
    let mut samples = Vec::new();
    append_pure_tone(&mut samples, sample_rate_hz, 1_000, 5_000, -23.0);
    samples.extend(std::iter::repeat(0).take(48_000));
    let before = loudness_lkfs(stereo_power(sample_rate_hz as u32, &samples));
    samples.extend(std::iter::repeat(0).take(48_000 * 7));
    let after = loudness_lkfs(stereo_power(sample_rate_hz as u32, &samples));
    assert!((before - after).abs() < 0.01, "{} vs {}", before, after);
}

#[test]
fn scaling_the_signal_shifts_the_loudness() {
    let sample_rate_hz = 48_000;
    let mut quiet = Vec::new();
    append_pure_tone(&mut quiet, sample_rate_hz, 1_000, 5_000, -40.0);
    let loud: Vec<i64> = quiet.iter().map(|s| s * 10).collect();
    let shift = loudness_lkfs(stereo_power(sample_rate_hz as u32, &loud))
        - loudness_lkfs(stereo_power(sample_rate_hz as u32, &quiet));
    assert!((shift - 20.0).abs() < 0.01, "shift of {} LU", shift);
}

#[test]
fn chunked_push_equals_single_push() {
    let sample_rate_hz = 44_100;
    let mut samples = Vec::new();
    append_pure_tone(&mut samples, sample_rate_hz, 1_000, 2_000, -20.0);
    let mut whole = meter_at(sample_rate_hz as u32);
    whole.push(&samples);
    let mut chunked = meter_at(sample_rate_hz as u32);
    for chunk in samples.chunks(1_000) {
        chunked.push(chunk);
    }
    assert_eq!(whole.power_windows().len(), 20);
    assert_eq!(whole.power_windows(), chunked.power_windows());
}
