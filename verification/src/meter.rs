//! Frame downmixing and level metering: the per-callback half of the
//! pipeline. Interleaved frames are folded to mono, and one level
//! snapshot (root-mean-square and peak) is produced per batch.
use vstd::prelude::*;
use vstd::arithmetic::div_mod::{
    lemma_fundamental_div_mod_converse, lemma_multiply_divide_le,
};

verus! {

/// One level snapshot per capture batch, in Q16 fixed point.
#[derive(Clone, Copy, Debug)]
pub struct Meter {
    /// Root of the mean squared mono sample, in [0, 65536].
    pub rms: u32,
    /// Largest absolute mono sample, in [0, 65536].
    pub peak: u32,
}

/// Division by two truncated toward zero, as the hardware does it.
pub open spec fn half_toward_zero(x: int) -> int {
    if x >= 0 {
        x / 2
    } else {
        -((-x) / 2)
    }
}

/// Absolute value.
pub open spec fn abs_of(x: int) -> int {
    if x >= 0 {
        x
    } else {
        -x
    }
}

/// Number of frames in an interleaved batch: every `c` samples make one
/// frame, a trailing partial frame included.
pub open spec fn frame_count(len: int, c: int) -> int {
    (len + c - 1) / c
}

/// Mono value of frame `k`: the mean of the first channel and the second
/// (a missing second channel counts as silence).
pub open spec fn mono_at(data: Seq<i32>, c: int, k: int) -> int {
    let left = data[k * c] as int;
    let right = if c > 1 && k * c + 1 < data.len() {
        data[k * c + 1] as int
    } else {
        0
    };
    half_toward_zero(left + right)
}

/// Largest absolute mono value among the first `k` frames.
pub open spec fn peak_upto(data: Seq<i32>, c: int, k: int) -> int
    decreases k,
{
    if k <= 0 {
        0
    } else {
        let p = peak_upto(data, c, k - 1);
        let a = abs_of(mono_at(data, c, k - 1));
        if a > p {
            a
        } else {
            p
        }
    }
}

/// Sum of the squared mono values of the first `k` frames.
pub open spec fn sum_sq_upto(data: Seq<i32>, c: int, k: int) -> int
    decreases k,
{
    if k <= 0 {
        0
    } else {
        sum_sq_upto(data, c, k - 1) + mono_at(data, c, k - 1) * mono_at(data, c, k - 1)
    }
}

/// Mean of the squared mono values over the whole batch (0 for an empty
/// batch: silence, never a division by zero).
pub open spec fn mean_square(data: Seq<i32>, c: int) -> int {
    let n = frame_count(data.len() as int, c);
    if n == 0 {
        0
    } else {
        sum_sq_upto(data, c, n) / n
    }
}

/// Downmixes one interleaved batch to mono and meters it. Returns the
/// mono batch — one sample per frame, the mean of the first two channels
/// — and a level snapshot whose peak is exact and whose rms is the
/// integer square root of the mean squared mono value.
pub fn downmix_batch(data: &Vec<i32>, channels: usize) -> (r: (Vec<i32>, Meter))
    requires
        channels >= 1,
        // sanity bounds that keep every index and sum in machine range
        channels <= 65536,
        data@.len() <= 0x40000000,
        // samples are normalized: within one fixed-point unit of zero
        forall|i: int| 0 <= i < data@.len() ==> -65536 <= #[trigger] data@[i] <= 65536,
    ensures
        r.0@.len() == frame_count(data@.len() as int, channels as int),
        forall|j: int|
            0 <= j < r.0@.len() ==> #[trigger] r.0@[j] == mono_at(data@, channels as int, j),
        forall|j: int| 0 <= j < r.0@.len() ==> -65536 <= #[trigger] r.0@[j] <= 65536,
        r.1.peak == peak_upto(data@, channels as int, frame_count(data@.len() as int, channels as int)),
        r.1.peak <= 65536,
        r.1.rms * r.1.rms <= mean_square(data@, channels as int),
        mean_square(data@, channels as int) < (r.1.rms + 1) * (r.1.rms + 1),
        r.1.rms <= 65536,
{
    let len = data.len();
    let mut mono: Vec<i32> = Vec::new();
    let mut peak: u32 = 0;
    let mut sum_sq: u64 = 0;
    let mut idx: usize = 0;
    let mut k: usize = 0;
    while idx < len
        invariant
            1 <= channels <= 65536,
            len == data@.len() <= 0x40000000,
            forall|i: int| 0 <= i < data@.len() ==> -65536 <= #[trigger] data@[i] <= 65536,
            idx == k * channels,
            idx < len + channels,
            k <= len,
            mono@.len() == k,
            forall|j: int|
                0 <= j < k ==> #[trigger] mono@[j] == mono_at(data@, channels as int, j),
            forall|j: int| 0 <= j < k ==> -65536 <= #[trigger] mono@[j] <= 65536,
            peak == peak_upto(data@, channels as int, k as int),
            peak <= 65536,
            sum_sq == sum_sq_upto(data@, channels as int, k as int),
            sum_sq <= k * 4294967296,
        decreases len - k,
    {
        let left: i32 = data[idx];
        let right: i32 = if channels > 1 && idx + 1 < len {
            data[idx + 1]
        } else {
            0
        };
        let sum: i32 = left + right;
        let m: i32 = if sum >= 0 {
            sum / 2
        } else {
            -((-sum) / 2)
        };
        assert(m == mono_at(data@, channels as int, k as int));
        let a: u32 = if m >= 0 {
            m as u32
        } else {
            (-m) as u32
        };
        if a > peak {
            peak = a;
        }
        assert((a as u64) * (a as u64) <= 65536 * 65536) by (nonlinear_arith)
            requires a <= 65536,
        ;
        sum_sq = sum_sq + (a as u64) * (a as u64);
        proof {
            assert((a as int) * (a as int) == (m as int) * (m as int)) by (nonlinear_arith)
                requires a as int == m as int || a as int == -(m as int),
            ;
            assert((k + 1) * (channels as int) == k * (channels as int) + channels)
                by (nonlinear_arith);
            assert(k as int <= k * (channels as int)) by (nonlinear_arith)
                requires channels >= 1, k >= 0,
            ;
        }
        mono.push(m);
        idx = idx + channels;
        k = k + 1;
    }
    proof {
        // idx == k * channels with len <= idx < len + channels pins k as
        // the rounded-up frame count
        lemma_fundamental_div_mod_converse(
            len + channels - 1,
            channels as int,
            k as int,
            len + channels - 1 - (k as int) * (channels as int),
        );
        assert(k as int == frame_count(data@.len() as int, channels as int));
    }
    let rms: u32 = if k == 0 {
        0
    } else {
        let mean: u64 = sum_sq / (k as u64);
        proof {
            lemma_multiply_divide_le(sum_sq as int, k as int, 4294967296);
        }
        let root = crate::fixed::isqrt(mean);
        assert(root <= 65536) by (nonlinear_arith)
            requires root * root <= 4294967296,
        ;
        root as u32
    };
    (mono, Meter { rms, peak })
}

} // verus!
