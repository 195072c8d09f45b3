use selara::analyzer::{Analyzer, Spectrum};

fn hann_window() -> Vec<u32> {
    (0..1024)
        .map(|i| {
            let w = 0.5 - 0.5 * (2.0 * std::f64::consts::PI * i as f64 / 1024.0).cos();
            (w * 65536.0).round() as u32
        })
        .collect()
}

fn flat_window() -> Vec<u32> {
    vec![selara::UNIT; selara::FFT_SIZE]
}

fn zero_power() -> Vec<u64> {
    vec![0u64; selara::NUM_BINS]
}

/// Forward real transform of a windowed Q16 frame, by the plain
/// O(n^2) definition, returning per-bin powers in Q32.
fn dft_power(frame: &[i32]) -> Vec<u64> {
    let n = frame.len();
    let x: Vec<f64> = frame.iter().map(|&s| s as f64 / 65536.0).collect();
    let mut power = Vec::with_capacity(n / 2 + 1);
    for k in 0..=(n / 2) {
        let mut re = 0.0f64;
        let mut im = 0.0f64;
        for (i, &v) in x.iter().enumerate() {
            let ph = 2.0 * std::f64::consts::PI * k as f64 * i as f64 / n as f64;
            re += v * ph.cos();
            im -= v * ph.sin();
        }
        let p = (re * re + im * im) * 65536.0 * 65536.0;
        let p = p.min(1125899906842624.0).max(0.0);
        power.push(p as u64);
    }
    power
}

fn drain(a: &mut Analyzer, out: &mut Vec<Spectrum>) {
    while a.ready() {
        let _frame = a.take_frame();
        out.push(a.bands_from_power(&zero_power()));
    }
}

#[test]
fn two_emissions_from_1024_plus_512() {
    let mut a = Analyzer::new(48000, flat_window());
    let mut snaps: Vec<Spectrum> = Vec::new();
    a.push_batch(&vec![100i32; 1024]);
    drain(&mut a, &mut snaps);
    assert_eq!(snaps.len(), 1);
    a.push_batch(&vec![100i32; 512]);
    drain(&mut a, &mut snaps);
    assert_eq!(snaps.len(), 2);
}

#[test]
fn emission_count_formula() {
    for total in [100usize, 1023, 1024, 1025, 1536, 2048, 4000, 10240] {
        let mut a = Analyzer::new(48000, flat_window());
        let mut snaps: Vec<Spectrum> = Vec::new();
        let mut sent = 0usize;
        while sent < total {
            let batch_len = 300.min(total - sent);
            a.push_batch(&vec![0i32; batch_len]);
            sent += batch_len;
            drain(&mut a, &mut snaps);
        }
        let expect = if total >= selara::FFT_SIZE {
            (total - selara::FFT_SIZE) / selara::HOP + 1
        } else {
            0
        };
        assert_eq!(snaps.len(), expect, "total {total}");
    }
}

#[test]
fn window_of_one_passes_samples_through() {
    let mut a = Analyzer::new(48000, flat_window());
    let batch: Vec<i32> = (0..1024).map(|i| i - 512).collect();
    a.push_batch(&batch);
    let frame = a.take_frame();
    assert_eq!(frame, batch);
}

#[test]
fn window_scaling_truncates_toward_zero() {
    let mut w = flat_window();
    for c in w.iter_mut() {
        *c = 32768; // coefficient one half
    }
    let mut a = Analyzer::new(48000, w);
    let mut batch = vec![0i32; 1024];
    batch[0] = 3;
    batch[1] = -3;
    batch[2] = 65536;
    a.push_batch(&batch);
    let frame = a.take_frame();
    assert_eq!(frame[0], 1);
    assert_eq!(frame[1], -1);
    assert_eq!(frame[2], 32768);
}

#[test]
fn snapshot_values_stay_in_unit_interval() {
    let mut a = Analyzer::new(48000, hann_window());
    // hammer it with the largest admissible powers
    let loud = vec![1125899906842624u64; 513];
    for _ in 0..20 {
        a.push_batch(&vec![65536i32; 512]);
        while a.ready() {
            let _ = a.take_frame();
            let s = a.bands_from_power(&loud);
            assert_eq!(s.bands.len(), selara::BANDS);
            assert_eq!(s.bands_linear.len(), selara::BANDS);
            for b in 0..selara::BANDS {
                assert!(s.bands[b] <= selara::UNIT);
                assert!(s.bands_linear[b] <= selara::UNIT);
            }
        }
    }
}

#[test]
fn silence_decays_to_zero() {
    let mut a = Analyzer::new(48000, hann_window());
    // one loud step to lift the levels
    a.push_batch(&vec![65536i32; 1024]);
    let _ = a.take_frame();
    let s = a.bands_from_power(&vec![1125899906842624u64; 513]);
    assert!(s.bands.iter().any(|&v| v > 0));
    assert!(s.bands_linear.iter().any(|&v| v > 0));
    // then silence: levels at least halve per step, so 40 steps kill a
    // Q16 level; they must reach zero exactly and stay there
    let mut last = s;
    for _ in 0..40 {
        a.push_batch(&vec![0i32; 512]);
        while a.ready() {
            let _ = a.take_frame();
            let next = a.bands_from_power(&zero_power());
            for b in 0..96 {
                // one silent smoothing step is exactly (2*prev)/5
                assert_eq!(next.bands[b], 2 * last.bands[b] / 5);
                assert_eq!(next.bands_linear[b], 2 * last.bands_linear[b] / 5);
            }
            last = next;
        }
    }
    assert!(last.bands.iter().all(|&v| v == 0));
    assert!(last.bands_linear.iter().all(|&v| v == 0));
}

#[test]
fn sine_peaks_in_the_predicted_band() {
    for f0 in [200u32, 1000, 4000, 10000] {
        let sr = 48000u32;
        let mut a = Analyzer::new(sr, hann_window());
        // a small amplitude keeps every band below the clamp at 1.0,
        // so the maximum is meaningful
        let batch: Vec<i32> = (0..1024)
            .map(|n| {
                let v =
                    0.01 * (2.0 * std::f64::consts::PI * f0 as f64 * n as f64 / sr as f64).sin();
                (v * 65536.0).round() as i32
            })
            .collect();
        a.push_batch(&batch);
        let frame = a.take_frame();
        let power = dft_power(&frame);
        let s = a.bands_from_power(&power);
        let mut best = 0usize;
        for b in 0..96 {
            if s.bands_linear[b] > s.bands_linear[best] {
                best = b;
            }
        }
        let predicted = a.map.band_for_hz(f0);
        let diff = if best > predicted { best - predicted } else { predicted - best };
        assert!(diff <= 1, "f0 {f0}: peak band {best}, predicted {predicted}");
    }
}
