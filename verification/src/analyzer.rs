//! The spectrum analyzer: a ring buffer fed by mono batches, windowed
//! frame extraction at a fixed hop, per-band power aggregation, level
//! conversion and temporal smoothing.
//!
//! One analysis step takes the first 1024 buffered samples, multiplies
//! them by the window, and — once the host has turned the windowed frame
//! into 513 per-bin powers with a forward real transform — folds the
//! powers into 96 bands, converts each band to a linear and a dB level
//! in [0, 1], smooths both against the previous step, and drops the
//! first 512 samples (50% overlap).
use vstd::prelude::*;
use vstd::arithmetic::power2::pow2;
use vstd::arithmetic::div_mod::{
    lemma_div_is_ordered, lemma_div_is_ordered_by_denominator, lemma_div_denominator,
    lemma_div_multiples_vanish, lemma_fundamental_div_mod_converse, lemma_div_nonincreasing,
    lemma_div_pos_is_pos,
};
use vstd::pervasive::VecAdditionalExecFns;
use crate::bands::BandMap;
use crate::fixed::{log2fix, log2fix_u64, isqrt};

verus! {

/// Highest per-bin power the analyzer accepts: 2^50, far above the power
/// a normalized full-scale window can reach.
pub const POWER_LIMIT: u64 = 1125899906842624;

/// Floor of the square root, as a deterministic specification value.
pub open spec fn sqrt_floor(x: int) -> int
    decreases x,
{
    if x <= 0 {
        0
    } else {
        let r = sqrt_floor(x - 1);
        if (r + 1) * (r + 1) <= x {
            r + 1
        } else {
            r
        }
    }
}

pub proof fn lemma_sqrt_floor_bounds(x: int)
    requires
        x >= 0,
    ensures
        sqrt_floor(x) >= 0,
        sqrt_floor(x) * sqrt_floor(x) <= x,
        x < (sqrt_floor(x) + 1) * (sqrt_floor(x) + 1),
    decreases x,
{
    if x > 0 {
        lemma_sqrt_floor_bounds(x - 1);
        let r = sqrt_floor(x - 1);
        if (r + 1) * (r + 1) <= x {
            assert((r + 2) * (r + 2) > (r + 1) * (r + 1)) by (nonlinear_arith)
                requires r >= 0,
            ;
        }
    }
}

/// The floor of the square root is pinned down by its bracketing squares.
pub proof fn lemma_sqrt_floor_is(x: int, r: int)
    requires
        x >= 0,
        r >= 0,
        r * r <= x,
        x < (r + 1) * (r + 1),
    ensures
        r == sqrt_floor(x),
{
    lemma_sqrt_floor_bounds(x);
    let s = sqrt_floor(x);
    if r < s {
        assert((r + 1) * (r + 1) <= s * s) by (nonlinear_arith)
            requires 0 <= r + 1 <= s,
        ;
        assert(false);
    }
    if s < r {
        assert((s + 1) * (s + 1) <= r * r) by (nonlinear_arith)
            requires 0 <= s + 1 <= r,
        ;
        assert(false);
    }
}

/// Power summed over the bins of band `b`, among the first `n` bins.
pub open spec fn band_pow_sum(power: Seq<u64>, map: Seq<usize>, b: int, n: int) -> int
    decreases n,
{
    if n <= 0 {
        0
    } else {
        band_pow_sum(power, map, b, n - 1) + if map[n - 1] == b {
            power[n - 1] as int
        } else {
            0
        }
    }
}

/// Number of bins assigned to band `b`, among the first `n` bins.
pub open spec fn band_bin_count(map: Seq<usize>, b: int, n: int) -> int
    decreases n,
{
    if n <= 0 {
        0
    } else {
        band_bin_count(map, b, n - 1) + if map[n - 1] == b {
            1int
        } else {
            0
        }
    }
}

pub proof fn lemma_band_pow_sum_bound(power: Seq<u64>, map: Seq<usize>, b: int, n: int)
    requires
        0 <= n <= power.len(),
        forall|i: int| 0 <= i < power.len() ==> #[trigger] power[i] <= POWER_LIMIT,
    ensures
        0 <= band_pow_sum(power, map, b, n) <= n * 1125899906842624,
    decreases n,
{
    if n > 0 {
        lemma_band_pow_sum_bound(power, map, b, n - 1);
    }
}

pub proof fn lemma_band_bin_count_bound(map: Seq<usize>, b: int, n: int)
    requires
        0 <= n,
    ensures
        0 <= band_bin_count(map, b, n) <= n,
    decreases n,
{
    if n > 0 {
        lemma_band_bin_count_bound(map, b, n - 1);
    }
}

/// Mean power of band `b` over all 513 bins; an empty band is silence.
pub open spec fn band_mean(power: Seq<u64>, map: Seq<usize>, b: int) -> int {
    let c = band_bin_count(map, b, 513);
    if c == 0 {
        0
    } else {
        band_pow_sum(power, map, b, 513) / c
    }
}

/// Linear level of a band: the magnitude (root of the mean power) times
/// the 0.2 gain times a further 0.8, clamped to one — `mag * 4 / 25` in
/// fixed point, capped at 65536.
pub open spec fn linear_level(mean: int) -> int {
    let lv = (sqrt_floor(mean) * 4) / 25;
    if lv > 65536 {
        65536
    } else {
        lv
    }
}

/// dB level of a band, remapped from the −60..0 dB window into [0, 65536].
/// The gained magnitude `mag/5` sits at −60 dB exactly when its Q16
/// base-two logarithm is 395458; each log unit above that is worth
/// 6576/65536 of the window (20·log10(2)/60 in Q16). A zero magnitude is
/// an explicit silence branch, never a logarithm of zero.
pub open spec fn db_level(mean: int) -> int {
    let v = sqrt_floor(mean) / 5;
    if v <= 0 {
        0
    } else {
        let l = log2fix(v as nat) as int;
        if l <= 395458 {
            0
        } else {
            let lv = ((l - 395458) * 6576) / 65536;
            if lv > 65536 {
                65536
            } else {
                lv
            }
        }
    }
}

/// One exponential smoothing step with α = 0.6: 0.6·next + 0.4·prev.
pub open spec fn smooth_step(prev: int, next: int) -> int {
    (3 * next + 2 * prev) / 5
}

/// Both level conversions land in [0, 65536], whatever the mean power.
pub proof fn lemma_levels_bounded(mean: int)
    requires
        mean >= 0,
    ensures
        0 <= linear_level(mean) <= 65536,
        0 <= db_level(mean) <= 65536,
{
    lemma_sqrt_floor_bounds(mean);
    lemma_div_pos_is_pos(sqrt_floor(mean) * 4, 25);
    lemma_div_pos_is_pos(sqrt_floor(mean), 5);
    let v = sqrt_floor(mean) / 5;
    if v > 0 {
        let l = log2fix(v as nat) as int;
        if l > 395458 {
            lemma_div_pos_is_pos((l - 395458) * 6576, 65536);
        }
    }
}

/// A smoothing step keeps a level within [0, 65536].
pub proof fn lemma_smooth_bounded(prev: int, next: int)
    requires
        0 <= prev <= 65536,
        0 <= next <= 65536,
    ensures
        0 <= smooth_step(prev, next) <= 65536,
{
    lemma_div_pos_is_pos(3 * next + 2 * prev, 5);
    lemma_div_is_ordered(3 * next + 2 * prev, 5 * 65536int, 5);
}

/// One smoothed spectrum snapshot: 96 dB levels and 96 linear levels,
/// each in [0, 65536] — the fixed-point image of [0, 1].
#[derive(Clone, Debug)]
pub struct Spectrum {
    pub bands: Vec<u32>,
    pub bands_linear: Vec<u32>,
}

impl Spectrum {
    /// Both sequences have one entry per band and every value lies in
    /// the unit interval.
    pub open spec fn wf(self) -> bool {
        &&& self.bands@.len() == 96
        &&& self.bands_linear@.len() == 96
        &&& forall|b: int| 0 <= b < 96 ==> #[trigger] self.bands@[b] <= 65536
        &&& forall|b: int| 0 <= b < 96 ==> #[trigger] self.bands_linear@[b] <= 65536
    }
}

/// Number of analysis steps a total of `pushed` samples yields when the
/// buffer is drained of full windows: one per window of 1024, advancing
/// 512 per step.
pub open spec fn emission_count(pushed: int) -> int {
    if pushed >= 1024 {
        (pushed - 1024) / 512 + 1
    } else {
        0
    }
}

/// The analyzer state: the ring buffer of pending mono samples, the
/// window coefficients, the band table, and the smoothed levels that
/// persist between steps. The ghost counters account for every sample
/// pushed and every frame taken.
pub struct Analyzer {
    /// Pending mono samples; analysis consumes them from the front.
    pub ring: Vec<i32>,
    /// Window coefficients in Q16, applied before the transform.
    pub window: Vec<u32>,
    /// The bin-to-band table.
    pub map: BandMap,
    /// Smoothed dB levels, one per band.
    pub smooth: Vec<u32>,
    /// Smoothed linear levels, one per band.
    pub smooth_linear: Vec<u32>,
    /// Total samples ever pushed.
    pub pushed: Ghost<int>,
    /// Total frames ever taken.
    pub emitted: Ghost<int>,
}

impl Analyzer {
    pub open spec fn wf(self) -> bool {
        &&& self.window@.len() == 1024
        &&& forall|i: int| 0 <= i < 1024 ==> #[trigger] self.window@[i] <= 65536
        &&& self.map.wf()
        &&& self.smooth@.len() == 96
        &&& self.smooth_linear@.len() == 96
        &&& forall|b: int| 0 <= b < 96 ==> #[trigger] self.smooth@[b] <= 65536
        &&& forall|b: int| 0 <= b < 96 ==> #[trigger] self.smooth_linear@[b] <= 65536
        &&& forall|i: int| 0 <= i < self.ring@.len() ==> -65536 <= #[trigger] self.ring@[i] <= 65536
        &&& self.pushed@ == self.ring@.len() + 512 * self.emitted@
        &&& self.emitted@ >= 0
        &&& self.emitted@ > 0 ==> self.ring@.len() >= 512
    }

    /// A fresh analyzer: empty ring, all levels at silence. The window
    /// coefficients are supplied by the host (their cosine shape is
    /// floating-point work); only their count and range matter here.
    pub fn new(sample_rate: u32, window: Vec<u32>) -> (r: Analyzer)
        requires
            sample_rate >= 80,
            window@.len() == 1024,
            forall|i: int| 0 <= i < 1024 ==> #[trigger] window@[i] <= 65536,
        ensures
            r.wf(),
            r.ring@.len() == 0,
            r.pushed@ == 0,
            r.emitted@ == 0,
            r.window@ == window@,
            r.map.sample_rate == sample_rate,
            forall|b: int| 0 <= b < 96 ==> #[trigger] r.smooth@[b] == 0,
            forall|b: int| 0 <= b < 96 ==> #[trigger] r.smooth_linear@[b] == 0,
    {
        Analyzer {
            ring: Vec::new(),
            window,
            map: BandMap::new(sample_rate),
            smooth: zero_levels(),
            smooth_linear: zero_levels(),
            pushed: Ghost(0),
            emitted: Ghost(0),
        }
    }

    /// Appends one mono batch to the ring buffer.
    pub fn push_batch(&mut self, batch: &Vec<i32>)
        requires
            old(self).wf(),
            forall|i: int| 0 <= i < batch@.len() ==> -65536 <= #[trigger] batch@[i] <= 65536,
            old(self).ring@.len() + batch@.len() <= 0x40000000,
        ensures
            final(self).wf(),
            final(self).ring@ == old(self).ring@ + batch@,
            final(self).pushed@ == old(self).pushed@ + batch@.len(),
            final(self).emitted@ == old(self).emitted@,
            final(self).window@ == old(self).window@,
            final(self).map == old(self).map,
            final(self).smooth@ == old(self).smooth@,
            final(self).smooth_linear@ == old(self).smooth_linear@,
    {
        let ghost orig = *self;
        let mut i: usize = 0;
        while i < batch.len()
            invariant
                i <= batch@.len(),
                forall|j: int| 0 <= j < batch@.len() ==> -65536 <= #[trigger] batch@[j] <= 65536,
                orig.ring@.len() + batch@.len() <= 0x40000000,
                self.ring@ == orig.ring@ + batch@.subrange(0, i as int),
                self.window == orig.window,
                self.map == orig.map,
                self.smooth == orig.smooth,
                self.smooth_linear == orig.smooth_linear,
                self.pushed == orig.pushed,
                self.emitted == orig.emitted,
            decreases batch@.len() - i,
        {
            let s = batch[i];
            self.ring.push(s);
            i = i + 1;
            proof {
                assert(self.ring@ =~= orig.ring@ + batch@.subrange(0, i as int));
            }
        }
        proof {
            assert(batch@.subrange(0, batch@.len() as int) =~= batch@);
        }
        self.pushed = Ghost(self.pushed@ + batch@.len());
    }

    /// Whether a full window of 1024 samples is buffered.
    pub fn ready(&self) -> (r: bool)
        ensures
            r == (self.ring@.len() >= 1024),
    {
        self.ring.len() >= 1024
    }

    /// Takes one analysis frame: the first 1024 buffered samples, each
    /// multiplied by its window coefficient (truncated toward zero), and
    /// drops the first 512 samples — half a window, for 50% overlap.
    pub fn take_frame(&mut self) -> (frame: Vec<i32>)
        requires
            old(self).wf(),
            old(self).ring@.len() >= 1024,
        ensures
            final(self).wf(),
            frame@.len() == 1024,
            forall|i: int|
                0 <= i < 1024 ==> #[trigger] frame@[i] == scale_q16(
                    old(self).ring@[i] as int,
                    old(self).window@[i] as int,
                ),
            forall|i: int| 0 <= i < 1024 ==> -65536 <= #[trigger] frame@[i] <= 65536,
            final(self).ring@ == old(self).ring@.subrange(512, old(self).ring@.len() as int),
            final(self).pushed@ == old(self).pushed@,
            final(self).emitted@ == old(self).emitted@ + 1,
            final(self).window@ == old(self).window@,
            final(self).map == old(self).map,
            final(self).smooth@ == old(self).smooth@,
            final(self).smooth_linear@ == old(self).smooth_linear@,
    {
        let ghost orig = *self;
        let mut frame: Vec<i32> = Vec::new();
        let mut i: usize = 0;
        while i < 1024
            invariant
                i <= 1024,
                orig.wf(),
                orig.ring@.len() >= 1024,
                *self == orig,
                frame@.len() == i,
                forall|j: int|
                    0 <= j < i ==> #[trigger] frame@[j] == scale_q16(
                        orig.ring@[j] as int,
                        orig.window@[j] as int,
                    ),
                forall|j: int| 0 <= j < i ==> -65536 <= #[trigger] frame@[j] <= 65536,
            decreases 1024 - i,
        {
            let s: i32 = self.ring[i];
            let w: u32 = self.window[i];
            let v: i32 = if s >= 0 {
                assert((s as u64) * (w as u64) <= 65536 * 65536) by (nonlinear_arith)
                    requires s <= 65536, w <= 65536, s >= 0,
                ;
                (((s as u64) * (w as u64)) / 65536) as i32
            } else {
                let m: i32 = -s;
                assert((m as u64) * (w as u64) <= 65536 * 65536) by (nonlinear_arith)
                    requires m <= 65536, w <= 65536, m >= 0,
                ;
                -((((m as u64) * (w as u64)) / 65536) as i32)
            };
            assert(v == scale_q16(orig.ring@[i as int] as int, orig.window@[i as int] as int));
            frame.push(v);
            i = i + 1;
        }
        // drop the first hop's worth of samples
        let mut rest: Vec<i32> = Vec::new();
        let mut j: usize = 512;
        let len = self.ring.len();
        while j < len
            invariant
                512 <= j <= len,
                *self == orig,
                len == orig.ring@.len() >= 1024,
                orig.wf(),
                rest@ == orig.ring@.subrange(512, j as int),
            decreases len - j,
        {
            let s = self.ring[j];
            rest.push(s);
            j = j + 1;
            proof {
                assert(rest@ =~= orig.ring@.subrange(512, j as int));
            }
        }
        self.ring = rest;
        self.emitted = Ghost(self.emitted@ + 1);
        frame
    }

    /// Folds the 513 per-bin powers of one transformed frame into the 96
    /// bands and smooths both level representations against the previous
    /// step. Every emitted value lies in [0, 65536] — the fixed-point
    /// unit interval. Powers arrive in Q32 (the square of the Q16 scale).
    pub fn bands_from_power(&mut self, power: &Vec<u64>) -> (s: Spectrum)
        requires
            old(self).wf(),
            power@.len() == 513,
            forall|i: int| 0 <= i < power@.len() ==> #[trigger] power@[i] <= POWER_LIMIT,
        ensures
            final(self).wf(),
            s.wf(),
            s.bands@ == final(self).smooth@,
            s.bands_linear@ == final(self).smooth_linear@,
            forall|b: int|
                0 <= b < 96 ==> #[trigger] final(self).smooth@[b] == smooth_step(
                    old(self).smooth@[b] as int,
                    db_level(band_mean(power@, old(self).map.map@, b)),
                ),
            forall|b: int|
                0 <= b < 96 ==> #[trigger] final(self).smooth_linear@[b] == smooth_step(
                    old(self).smooth_linear@[b] as int,
                    linear_level(band_mean(power@, old(self).map.map@, b)),
                ),
            final(self).ring@ == old(self).ring@,
            final(self).pushed@ == old(self).pushed@,
            final(self).emitted@ == old(self).emitted@,
            final(self).window@ == old(self).window@,
            final(self).map == old(self).map,
    {
        let ghost orig = *self;
        let mut pow_acc: Vec<u64> = zero_acc();
        let mut cnt_acc: Vec<u32> = zero_levels();
        let mut bin: usize = 0;
        while bin < 513
            invariant
                bin <= 513,
                *self == orig,
                orig.wf(),
                power@.len() == 513,
                forall|i: int| 0 <= i < power@.len() ==> #[trigger] power@[i] <= POWER_LIMIT,
                pow_acc@.len() == 96,
                cnt_acc@.len() == 96,
                forall|b: int|
                    0 <= b < 96 ==> #[trigger] pow_acc@[b] == band_pow_sum(
                        power@,
                        orig.map.map@,
                        b,
                        bin as int,
                    ),
                forall|b: int|
                    0 <= b < 96 ==> #[trigger] cnt_acc@[b] == band_bin_count(
                        orig.map.map@,
                        b,
                        bin as int,
                    ),
            decreases 513 - bin,
        {
            let b: usize = self.map.map[bin];
            assert(b < 96);
            proof {
                lemma_band_pow_sum_bound(power@, orig.map.map@, b as int, bin as int);
                lemma_band_bin_count_bound(orig.map.map@, b as int, bin as int);
            }
            let cur_pow: u64 = pow_acc[b];
            let p: u64 = power[bin];
            pow_acc.set(b, cur_pow + p);
            let cur_cnt: u32 = cnt_acc[b];
            cnt_acc.set(b, cur_cnt + 1);
            bin = bin + 1;
        }
        let mut out: Vec<u32> = Vec::new();
        let mut out_linear: Vec<u32> = Vec::new();
        let mut band: usize = 0;
        while band < 96
            invariant
                band <= 96,
                self.ring == orig.ring,
                self.window == orig.window,
                self.map == orig.map,
                self.pushed == orig.pushed,
                self.emitted == orig.emitted,
                orig.wf(),
                self.wf(),
                power@.len() == 513,
                forall|i: int| 0 <= i < power@.len() ==> #[trigger] power@[i] <= POWER_LIMIT,
                pow_acc@.len() == 96,
                cnt_acc@.len() == 96,
                forall|b: int|
                    0 <= b < 96 ==> #[trigger] pow_acc@[b] == band_pow_sum(
                        power@,
                        orig.map.map@,
                        b,
                        513,
                    ),
                forall|b: int|
                    0 <= b < 96 ==> #[trigger] cnt_acc@[b] == band_bin_count(
                        orig.map.map@,
                        b,
                        513,
                    ),
                out@.len() == band,
                out_linear@.len() == band,
                forall|b: int|
                    0 <= b < band ==> #[trigger] self.smooth@[b] == smooth_step(
                        orig.smooth@[b] as int,
                        db_level(band_mean(power@, orig.map.map@, b)),
                    ),
                forall|b: int|
                    0 <= b < band ==> #[trigger] self.smooth_linear@[b] == smooth_step(
                        orig.smooth_linear@[b] as int,
                        linear_level(band_mean(power@, orig.map.map@, b)),
                    ),
                forall|b: int|
                    band <= b < 96 ==> #[trigger] self.smooth@[b] == orig.smooth@[b],
                forall|b: int|
                    band <= b < 96 ==> #[trigger] self.smooth_linear@[b] == orig.smooth_linear@[b],
                forall|b: int| 0 <= b < band ==> #[trigger] out@[b] == self.smooth@[b],
                forall|b: int|
                    0 <= b < band ==> #[trigger] out_linear@[b] == self.smooth_linear@[b],
            decreases 96 - band,
        {
            let sum: u64 = pow_acc[band];
            let cnt: u32 = cnt_acc[band];
            proof {
                lemma_band_pow_sum_bound(power@, orig.map.map@, band as int, 513);
                lemma_band_bin_count_bound(orig.map.map@, band as int, 513);
            }
            let mean: u64 = if cnt == 0 {
                0
            } else {
                proof {
                    lemma_div_nonincreasing(sum as int, cnt as int);
                    lemma_div_pos_is_pos(sum as int, cnt as int);
                }
                sum / (cnt as u64)
            };
            assert(mean as int == band_mean(power@, orig.map.map@, band as int));
            let mag: u64 = isqrt(mean);
            proof {
                lemma_sqrt_floor_is(mean as int, mag as int);
                assert(mag < 1073741824) by (nonlinear_arith)
                    requires
                        mag * mag <= mean,
                        mean < 1152921504606846976,
                ;
            }
            // linear level: mag * 0.2 gain * 0.8, clamped to one
            let lin_raw: u64 = (mag * 4) / 25;
            let lin: u32 = if lin_raw > 65536 {
                65536
            } else {
                lin_raw as u32
            };
            // dB level: 20*log10(mag * 0.2) remapped from -60..0 dB
            let v: u64 = mag / 5;
            let db: u32 = if v == 0 {
                0
            } else {
                let l: u64 = log2fix_u64(v);
                if l <= 395458 {
                    0
                } else {
                    let db_raw: u64 = ((l - 395458) * 6576) / 65536;
                    if db_raw > 65536 {
                        65536
                    } else {
                        db_raw as u32
                    }
                }
            };
            assert(lin as int == linear_level(mean as int));
            assert(db as int == db_level(mean as int));
            let prev: u32 = self.smooth[band];
            let prev_lin: u32 = self.smooth_linear[band];
            proof {
                lemma_levels_bounded(mean as int);
                lemma_smooth_bounded(prev as int, db as int);
                lemma_smooth_bounded(prev_lin as int, lin as int);
            }
            let next: u32 = (((3 * (db as u64)) + 2 * (prev as u64)) / 5) as u32;
            let next_lin: u32 = (((3 * (lin as u64)) + 2 * (prev_lin as u64)) / 5) as u32;
            self.smooth.set(band, next);
            self.smooth_linear.set(band, next_lin);
            out.push(next);
            out_linear.push(next_lin);
            band = band + 1;
        }
        proof {
            assert(out@ =~= self.smooth@);
            assert(out_linear@ =~= self.smooth_linear@);
        }
        Spectrum { bands: out, bands_linear: out_linear }
    }

    /// Law: whenever the ring holds less than one full window — every
    /// full window has been analyzed — the number of frames taken out of
    /// `S` pushed samples is `(S - 1024) / 512 + 1` for `S >= 1024`, and
    /// zero for fewer.
    pub proof fn lemma_emission_count(self)
        requires
            self.wf(),
            self.ring@.len() < 1024,
        ensures
            self.emitted@ == emission_count(self.pushed@),
    {
        let e = self.emitted@;
        let p = self.pushed@;
        let l = self.ring@.len() as int;
        if p >= 1024 {
            assert(e > 0);
            lemma_fundamental_div_mod_converse(p - 1024, 512, e - 1, l - 512);
        }
    }
}

/// 96 levels at silence.
fn zero_levels() -> (r: Vec<u32>)
    ensures
        r@.len() == 96,
        forall|b: int| 0 <= b < 96 ==> #[trigger] r@[b] == 0,
{
    let mut v: Vec<u32> = Vec::new();
    let mut i: usize = 0;
    while i < 96
        invariant
            i <= 96,
            v@.len() == i,
            forall|b: int| 0 <= b < i ==> #[trigger] v@[b] == 0,
        decreases 96 - i,
    {
        v.push(0);
        i = i + 1;
    }
    v
}

/// 96 power accumulators at zero.
fn zero_acc() -> (r: Vec<u64>)
    ensures
        r@.len() == 96,
        forall|b: int| 0 <= b < 96 ==> #[trigger] r@[b] == 0,
{
    let mut v: Vec<u64> = Vec::new();
    let mut i: usize = 0;
    while i < 96
        invariant
            i <= 96,
            v@.len() == i,
            forall|b: int| 0 <= b < i ==> #[trigger] v@[b] == 0,
        decreases 96 - i,
    {
        v.push(0);
        i = i + 1;
    }
    v
}

/// A sample scaled by a Q16 coefficient, truncated toward zero.
pub open spec fn scale_q16(s: int, w: int) -> int {
    if s >= 0 {
        (s * w) / 65536
    } else {
        -(((-s) * w) / 65536)
    }
}

/// All-zero bins sum to zero power in every band.
proof fn lemma_zero_power_sum(power: Seq<u64>, map: Seq<usize>, b: int, n: int)
    requires
        0 <= n <= power.len(),
        forall|i: int| 0 <= i < power.len() ==> #[trigger] power[i] == 0,
    ensures
        band_pow_sum(power, map, b, n) == 0,
    decreases n,
{
    if n > 0 {
        lemma_zero_power_sum(power, map, b, n - 1);
    }
}

/// Law: a frame of all-zero powers is silence for every band — its mean
/// power is zero, and both level conversions of a zero mean are zero. A
/// smoothing step on it is therefore one decay step, and by
/// [`lemma_silence_decay`] repeated silent frames drive every band to
/// zero geometrically.
pub proof fn lemma_silent_bins_yield_silence(power: Seq<u64>, map: Seq<usize>, b: int)
    requires
        power.len() == 513,
        forall|i: int| 0 <= i < power.len() ==> #[trigger] power[i] == 0,
    ensures
        band_mean(power, map, b) == 0,
        db_level(0) == 0,
        linear_level(0) == 0,
{
    lemma_zero_power_sum(power, map, b, 513);
    lemma_band_bin_count_bound(map, b, 513);
    let c = band_bin_count(map, b, 513);
    if c > 0 {
        lemma_div_pos_is_pos(0, c);
        lemma_div_nonincreasing(0, c);
    }
}

/// The level after `n` smoothing steps on silence.
pub open spec fn decay_n(p: int, n: nat) -> int
    decreases n,
{
    if n == 0 {
        p
    } else {
        smooth_step(decay_n(p, (n - 1) as nat), 0)
    }
}

/// Law: on silence, a level at least halves with every smoothing step —
/// after `n` all-zero steps it is at most `p / 2^n`, and it reaches zero
/// exactly once 2^n exceeds the starting level.
pub proof fn lemma_silence_decay(p: int, n: nat)
    requires
        0 <= p,
    ensures
        0 <= decay_n(p, n) <= p / (pow2(n) as int),
        pow2(n) > p ==> decay_n(p, n) == 0,
    decreases n,
{
    vstd::arithmetic::power2::lemma_pow2_pos(n);
    vstd::arithmetic::power2::lemma2_to64();
    if n == 0 {
        assert(p / 1 == p) by {
            lemma_div_multiples_vanish(p, 1);
        }
    } else {
        lemma_silence_decay(p, (n - 1) as nat);
        let q = decay_n(p, (n - 1) as nat);
        let h = pow2((n - 1) as nat) as int;
        vstd::arithmetic::power2::lemma_pow2_pos((n - 1) as nat);
        vstd::arithmetic::power2::lemma_pow2_unfold(n);
        // one step is at most a halving: (2q)/5 <= (2q)/4 == q/2
        lemma_div_pos_is_pos(2 * q, 5);
        lemma_div_is_ordered_by_denominator(2 * q, 4, 5);
        lemma_div_denominator(2 * q, 2, 2);
        assert((2 * q) / 2 == q) by {
            lemma_div_multiples_vanish(q, 2);
        }
        // and halving composes: (p/2^(n-1))/2 == p/2^n
        lemma_div_is_ordered(q, p / h, 2);
        lemma_div_denominator(p, h, 2);
        if pow2(n) > p {
            lemma_fundamental_div_mod_converse(p, pow2(n) as int, 0, p);
        }
    }
}

} // verus!
