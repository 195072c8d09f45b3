//! Logarithmic band mapping: every spectrum bin is assigned to one of
//! [`crate::BANDS`] perceptual bands, spaced evenly in the logarithm of
//! the bin's center frequency between the frequency floor and ceiling.
use vstd::prelude::*;
use vstd::arithmetic::div_mod::{
    lemma_div_is_ordered, lemma_fundamental_div_mod_converse, lemma_div_pos_is_pos,
};
use vstd::arithmetic::mul::lemma_mul_inequality;
use crate::fixed::{log2fix, log2fix_u64, lemma_log2fix_mono, lemma_floor_log2_is, lemma_frac_log2_bound, lemma_normalized_range};
use vstd::arithmetic::power2::{pow2, lemma2_to64};

verus! {

/// Frequency ceiling in Hz: half the sample rate, capped at 20 kHz.
pub open spec fn ceiling_hz(sr: nat) -> nat {
    if sr / 2 < 20000 {
        sr / 2
    } else {
        20000
    }
}

/// Band index for a frequency carried as `frequency * 1024` (scaling both
/// sides by the transform size avoids dividing `bin * sample_rate` by it).
/// The position of the frequency between the floor (20 Hz) and the ceiling
/// is measured on the fixed-point base-two logarithm and rounded onto the
/// 96 bands; frequencies at or above the ceiling take the last band.
pub open spec fn band_of_scaled(a: nat, sr: nat) -> int {
    let hi = ceiling_hz(sr) * 1024;  // the floor, 20 Hz, scales to 20480
    let af = if a < 20480 { 20480nat } else { a };
    if af >= hi {
        95
    } else {
        let num = log2fix(af) - log2fix(20480nat);
        let den = log2fix(hi) - log2fix(20480nat);
        let b = (2 * num * 95 + den) / (2 * den);
        if b > 95 {
            95
        } else {
            b
        }
    }
}

/// Band index of a spectrum bin: its center frequency is
/// `bin * sample_rate / 1024`, so `bin * sample_rate` is the scaled value.
pub open spec fn band_of_bin(bin: nat, sr: nat) -> int {
    band_of_scaled(bin * sr, sr)
}

/// The fixed bin-to-band table, computed once from the sample rate.
pub struct BandMap {
    /// Band index of each of the 513 bins.
    pub map: Vec<usize>,
    /// Sample rate the table was built for.
    pub sample_rate: u32,
}

impl BandMap {
    /// The table matches the band formula for every bin, and every entry
    /// is a valid band index.
    pub open spec fn wf(self) -> bool {
        &&& self.sample_rate >= 80
        &&& self.map@.len() == 513
        &&& forall|i: int|
            0 <= i < 513 ==> (#[trigger] self.map@[i]) == band_of_bin(i as nat, self.sample_rate as nat)
        &&& forall|i: int| 0 <= i < 513 ==> (#[trigger] self.map@[i]) < 96
    }

    /// Builds the table. The sample rate must leave the frequency ceiling
    /// above twice the 20 Hz floor, so that the logarithmic span between
    /// them is positive.
    pub fn new(sample_rate: u32) -> (r: BandMap)
        requires
            sample_rate >= 80,
        ensures
            r.wf(),
            r.sample_rate == sample_rate,
    {
        let mut map: Vec<usize> = Vec::new();
        let mut bin: usize = 0;
        while bin < 513
            invariant
                bin <= 513,
                map@.len() == bin,
                sample_rate >= 80,
                forall|i: int|
                    0 <= i < bin ==> (#[trigger] map@[i]) == band_of_bin(
                        i as nat,
                        sample_rate as nat,
                    ),
                forall|i: int| 0 <= i < bin ==> (#[trigger] map@[i]) < 96,
            decreases 513 - bin,
        {
            assert((bin as u64) * (sample_rate as u64) <= 512 * 4294967295) by (nonlinear_arith)
                requires bin <= 512, sample_rate <= 4294967295,
            ;
            let a: u64 = (bin as u64) * (sample_rate as u64);
            let b: usize = band_for_scaled(a, sample_rate);
            map.push(b);
            bin = bin + 1;
        }
        BandMap { map, sample_rate }
    }

    /// The band the map's formula predicts for a frequency in Hz — the
    /// band a bin centered on that frequency would take.
    pub fn band_for_hz(&self, hz: u32) -> (b: usize)
        requires
            self.sample_rate >= 80,
        ensures
            b as int == band_of_scaled(hz as nat * 1024, self.sample_rate as nat),
            b < 96,
    {
        band_for_scaled((hz as u64) * 1024, self.sample_rate)
    }
}

/// Band index for one scaled frequency, following the formula of
/// [`band_of_scaled`] exactly.
fn band_for_scaled(a: u64, sample_rate: u32) -> (b: usize)
    requires
        sample_rate >= 80,
    ensures
        b as int == band_of_scaled(a as nat, sample_rate as nat),
        b < 96,
{
    let sr64: u64 = sample_rate as u64;
    let lo_s: u64 = 20480;
    let hi_hz: u64 = if sr64 / 2 < 20000 {
        sr64 / 2
    } else {
        20000
    };
    let hi_s: u64 = hi_hz * 1024;
    proof {
        lemma_denominator_positive(sample_rate as nat);
        assert(hi_s as nat == ceiling_hz(sample_rate as nat) * 1024);
    }
    let af: u64 = if a < lo_s {
        lo_s
    } else {
        a
    };
    if af >= hi_s {
        95
    } else {
        let l_lo = log2fix_u64(lo_s);
        let l_hi = log2fix_u64(hi_s);
        let den: u64 = l_hi - l_lo;
        let l_a = log2fix_u64(af);
        proof {
            lemma_log2fix_mono(20480nat, af as nat);
            lemma_log2fix_mono(af as nat, hi_s as nat);
        }
        let num: u64 = l_a - l_lo;
        let bb: u64 = (2 * num * 95 + den) / (2 * den);
        if bb > 95 {
            95
        } else {
            bb as usize
        }
    }
}

/// Every band index the formula yields is valid.
pub proof fn lemma_band_range(a: nat, sr: nat)
    requires
        sr >= 80,
    ensures
        0 <= band_of_scaled(a, sr) <= 95,
{
    lemma_denominator_positive(sr);
    let hi = ceiling_hz(sr) * 1024;
    let af = if a < 20480 { 20480nat } else { a };
    if af < hi {
        lemma_log2fix_mono(20480nat, af);
        let num = log2fix(af) - log2fix(20480nat);
        let den = log2fix(hi) - log2fix(20480nat);
        lemma_div_pos_is_pos(2 * num * 95 + den, 2 * den);
    }
}

/// The band formula is monotone in the (scaled) frequency.
pub proof fn lemma_band_mono(a1: nat, a2: nat, sr: nat)
    requires
        sr >= 80,
        a1 <= a2,
    ensures
        band_of_scaled(a1, sr) <= band_of_scaled(a2, sr),
{
    lemma_denominator_positive(sr);
    lemma_band_range(a1, sr);
    lemma_band_range(a2, sr);
    let hi = ceiling_hz(sr) * 1024;
    let af1 = if a1 < 20480 { 20480nat } else { a1 };
    let af2 = if a2 < 20480 { 20480nat } else { a2 };
    if af1 < hi && af2 < hi {
        lemma_log2fix_mono(20480nat, af1);
        lemma_log2fix_mono(af1, af2);
        let num1 = log2fix(af1) - log2fix(20480nat);
        let num2 = log2fix(af2) - log2fix(20480nat);
        let den = log2fix(hi) - log2fix(20480nat);
        lemma_div_is_ordered(2 * num1 * 95 + den, 2 * num2 * 95 + den, 2 * den);
    }
}

/// Law: the band map never decreases with the bin index — a bin of higher
/// frequency is never assigned a lower band.
pub proof fn lemma_band_map_monotone(m: BandMap, i: int, j: int)
    requires
        m.wf(),
        0 <= i <= j < 513,
    ensures
        m.map@[i] <= m.map@[j],
{
    lemma_mul_inequality(i, j, m.sample_rate as int);
    lemma_band_mono((i * m.sample_rate) as nat, (j * m.sample_rate) as nat, m.sample_rate as nat);
}

/// The first bin sits at the frequency floor and takes band 0.
pub proof fn lemma_band_map_first(m: BandMap)
    requires
        m.wf(),
    ensures
        m.map@[0] == 0,
{
    lemma_denominator_positive(m.sample_rate as nat);
    let sr = m.sample_rate as nat;
    let hi = ceiling_hz(sr) * 1024;
    let den = log2fix(hi) - log2fix(20480nat);
    assert((0nat * sr) == 0);
    lemma_fundamental_div_mod_converse(den, 2 * den, 0, den);
    assert(band_of_bin(0nat, sr) == 0);
}

/// The last bin sits at or above the frequency ceiling and takes band 95.
pub proof fn lemma_band_map_last(m: BandMap)
    requires
        m.wf(),
    ensures
        m.map@[512] == 95,
{
    let sr = m.sample_rate as nat;
    assert(2 * (sr / 2) <= sr);
    assert(ceiling_hz(sr) * 1024 <= 512 * sr);
    assert(band_of_bin(512nat, sr) == 95);
}

/// Every value up to the one at position `j` is attained somewhere before
/// `j`, provided the sequence starts at 0 and climbs by at most 1.
proof fn lemma_reach(s: Seq<usize>, j: int, b: int)
    requires
        0 <= j < s.len(),
        s[0] == 0,
        forall|i: int| 0 <= i < j ==> #[trigger] s[i + 1] <= s[i] + 1,
        0 <= b <= s[j],
    ensures
        exists|i: int| 0 <= i <= j && #[trigger] s[i] == b,
    decreases j,
{
    if j == 0 {
        assert(s[0] == b);
    } else if b <= s[j - 1] {
        lemma_reach(s, j - 1, b);
    } else {
        assert(s[(j - 1) + 1] <= s[j - 1] + 1);
        assert(s[j] == b);
    }
}

/// Some bin is assigned band `b`.
pub open spec fn attained(m: BandMap, b: int) -> bool {
    exists|i: int| 0 <= i < 513 && #[trigger] m.map@[i] == b
}

/// Law: whenever consecutive bins never skip a band — each table entry
/// exceeds its predecessor by at most one — the band map is surjective
/// onto the band indices 0 to 95. (A high sample rate widens the gap
/// between low bins on the logarithmic axis, skips low bands, and leaves
/// the map non-surjective; low rates satisfy the premise.)
pub proof fn lemma_band_map_surjective(m: BandMap)
    requires
        m.wf(),
        forall|i: int| 0 <= i < 512 ==> #[trigger] m.map@[i + 1] <= m.map@[i] + 1,
    ensures
        forall|b: int| 0 <= b < 96 ==> #[trigger] attained(m, b),
{
    lemma_band_map_first(m);
    lemma_band_map_last(m);
    assert forall|b: int| 0 <= b < 96 implies #[trigger] attained(m, b) by {
        lemma_reach(m.map@, 512, b);
    }
}

/// The logarithmic span between floor and ceiling is positive whenever the
/// ceiling is at least twice the floor, which `sample_rate >= 80` grants.
proof fn lemma_denominator_positive(sr: nat)
    requires
        sr >= 80,
    ensures
        ceiling_hz(sr) * 1024 >= 40960,
        log2fix(20480nat) < log2fix(ceiling_hz(sr) * 1024),
        log2fix(ceiling_hz(sr) * 1024) <= 63 * 65536 + 65535,
{
    lemma2_to64();
    let hi = ceiling_hz(sr) * 1024;
    assert(ceiling_hz(sr) >= 40);
    assert(hi >= 40960);
    lemma_log2fix_mono(40960nat, hi);
    lemma_floor_log2_is(40960nat, 15);
    lemma_floor_log2_is(20480nat, 14);
    lemma_frac_log2_bound(crate::fixed::normalized(20480nat), 16);
    lemma_normalized_range(20480nat);
    // the ceiling is at most 20000 * 1024 < 2^25
    assert(hi <= 20480000);
    lemma_log2fix_upper(hi);
}

/// Any Q16 logarithm of a 64-bit value stays below 64 log units.
proof fn lemma_log2fix_upper(x: nat)
    requires
        1 <= x < 0x10000000000000000,
    ensures
        log2fix(x) <= 63 * 65536 + 65535,
{
    lemma2_to64();
    crate::fixed::lemma_floor_log2_bounds(x);
    let k = crate::fixed::floor_log2(x);
    if k > 63 {
        if k > 64 {
            vstd::arithmetic::power2::lemma_pow2_strictly_increases(64, k);
        }
        vstd::arithmetic::power2::lemma2_to64_rest();
        assert(x >= pow2(64));
        assert(false);
    }
    lemma_normalized_range(x);
    lemma_frac_log2_bound(crate::fixed::normalized(x), 16);
}

} // verus!
