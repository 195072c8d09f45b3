use selara::meter::downmix_batch;

fn q16(x: f64) -> i32 {
    (x * 65536.0).round() as i32
}

#[test]
fn downmix_stereo_exact() {
    // frames: (0.5, -0.5) -> 0, (1.0, 0.0) -> 0.5
    let data = vec![32768i32, -32768, 65536, 0];
    let (mono, m) = downmix_batch(&data, 2);
    assert_eq!(mono, vec![0, 32768]);
    assert_eq!(m.peak, 32768);
    // mean square = (0 + 32768^2)/2 = 536870912; floor of its root
    assert_eq!(m.rms, 23170);
}

#[test]
fn downmix_single_channel_halves() {
    // one channel: the missing right channel counts as silence, so the
    // mono value is half the input
    let data = vec![65536i32, -65536, 32768];
    let (mono, m) = downmix_batch(&data, 1);
    assert_eq!(mono, vec![32768, -32768, 16384]);
    assert_eq!(m.peak, 32768);
}

#[test]
fn downmix_truncates_toward_zero() {
    let data = vec![3i32, 0, -3, 0];
    let (mono, _) = downmix_batch(&data, 2);
    assert_eq!(mono, vec![1, -1]);
}

#[test]
fn downmix_empty_batch_is_silence() {
    let data: Vec<i32> = vec![];
    let (mono, m) = downmix_batch(&data, 2);
    assert!(mono.is_empty());
    assert_eq!(m.rms, 0);
    assert_eq!(m.peak, 0);
}

#[test]
fn downmix_partial_trailing_frame() {
    // 3 samples at 2 channels: the last frame has only a left sample
    let data = vec![65536i32, 65536, 65536];
    let (mono, _) = downmix_batch(&data, 2);
    assert_eq!(mono, vec![65536, 32768]);
}

#[test]
fn rms_of_sine_is_amplitude_over_root_two() {
    // a stereo sine of peak amplitude 0.5 on both channels
    let a = 0.5f64;
    let sr = 48000.0f64;
    let mut data: Vec<i32> = Vec::new();
    for n in 0..48000 {
        let v = a * (2.0 * std::f64::consts::PI * 100.0 * n as f64 / sr).sin();
        let s = q16(v);
        data.push(s);
        data.push(s);
    }
    let (_, m) = downmix_batch(&data, 2);
    let rms = m.rms as f64 / 65536.0;
    let peak = m.peak as f64 / 65536.0;
    assert!((rms - a / 2.0f64.sqrt()).abs() < 1e-3, "rms {rms}");
    assert!((peak - a).abs() < 1e-3, "peak {peak}");
}
