use selara::bands::BandMap;

#[test]
fn band_map_monotone_and_in_range() {
    let m = BandMap::new(48000);
    assert_eq!(m.map.len(), 513);
    for i in 0..513 {
        assert!(m.map[i] < 96);
        if i > 0 {
            assert!(m.map[i - 1] <= m.map[i]);
        }
    }
}

#[test]
fn band_map_endpoints() {
    for sr in [8000u32, 44100, 48000, 96000, 192000] {
        let m = BandMap::new(sr);
        assert_eq!(m.map[0], 0, "sample rate {sr}");
        assert_eq!(m.map[512], 95, "sample rate {sr}");
    }
}

#[test]
fn band_map_surjective_at_low_rate() {
    // at a low sample rate the bins are dense enough on the log axis
    // that no band is skipped, and the map reaches every band
    let m = BandMap::new(400);
    for i in 1..513 {
        assert!(m.map[i] <= m.map[i - 1] + 1, "skip at bin {i}");
    }
    let mut hit = [false; 96];
    for i in 0..513 {
        hit[m.map[i]] = true;
    }
    for b in 0..96 {
        assert!(hit[b], "band {b} never hit");
    }
}

#[test]
fn band_map_skips_low_bands_at_high_rate() {
    // at 48 kHz the first bins jump several bands on the log axis:
    // the map is monotone but not surjective
    let m = BandMap::new(48000);
    let mut hit = [false; 96];
    for i in 0..513 {
        hit[m.map[i]] = true;
    }
    assert!(!hit[1], "a 46.9 Hz wide bin cannot land in band 1");
}

#[test]
fn band_for_hz_edges() {
    let m = BandMap::new(48000);
    // at or below the 20 Hz floor: band 0
    assert_eq!(m.band_for_hz(10), 0);
    assert_eq!(m.band_for_hz(20), 0);
    // at or above the 20 kHz ceiling: the last band
    assert_eq!(m.band_for_hz(20000), 95);
    assert_eq!(m.band_for_hz(24000), 95);
    // strictly inside: strictly between
    let mid = m.band_for_hz(632); // close to sqrt(20 * 20000)
    assert!(mid > 40 && mid < 56, "got {mid}");
}

#[test]
fn band_for_hz_matches_bin_centers() {
    let m = BandMap::new(44100);
    for bin in [0usize, 1, 7, 64, 255, 512] {
        // a bin's center frequency is bin*sr/1024; its table entry and
        // the frequency query agree whenever the frequency is exact
        let hz_times_1024 = bin * 44100;
        if hz_times_1024 % 1024 == 0 {
            assert_eq!(m.map[bin], m.band_for_hz((hz_times_1024 / 1024) as u32));
        }
    }
}
