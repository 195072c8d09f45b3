//! Fixed-point arithmetic helpers: integer square root and a base-two
//! logarithm with sixteen fractional bits, used by the metering and the
//! band mapping.
use vstd::prelude::*;
use vstd::arithmetic::power2::{
    pow2, lemma_pow2_unfold, lemma_pow2_strictly_increases, lemma_pow2_adds, lemma_pow2_subtracts,
    lemma_pow2_pos, lemma2_to64, lemma2_to64_rest,
};
use vstd::arithmetic::div_mod::{lemma_div_is_ordered, lemma_multiply_divide_lt};

verus! {

/// Lower end of the normalization range for the fractional log: 2^31.
pub const NORM_LO: u64 = 2147483648;

/// Upper end of the normalization range for the fractional log: 2^32.
pub const NORM_HI: u64 = 4294967296;

/// Integer square root: the largest `r` with `r * r <= x`.
pub fn isqrt(x: u64) -> (r: u64)
    ensures
        r * r <= x,
        x < (r + 1) * (r + 1),
{
    let mut lo: u64 = 0;
    let mut hi: u64 = 4294967296;
    // The answer lies in [lo, hi).
    while lo + 1 < hi
        invariant
            lo < hi <= 4294967296,
            lo * lo <= x,
            x < hi * hi,
        decreases hi - lo,
    {
        let mid: u64 = lo + (hi - lo) / 2;
        assert(mid * mid <= 4294967295 * 4294967295) by (nonlinear_arith)
            requires mid <= 4294967295,
        ;
        if mid * mid <= x {
            lo = mid;
        } else {
            hi = mid;
        }
    }
    lo
}

/// The exponent of the largest power of two that is at most `x`.
pub open spec fn floor_log2(x: nat) -> nat
    recommends
        x >= 1,
    decreases x,
{
    if x < 2 {
        0
    } else {
        1 + floor_log2(x / 2)
    }
}

pub proof fn lemma_floor_log2_bounds(x: nat)
    requires
        x >= 1,
    ensures
        pow2(floor_log2(x)) <= x < pow2(floor_log2(x) + 1),
    decreases x,
{
    lemma2_to64();
    if x < 2 {
    } else {
        lemma_floor_log2_bounds(x / 2);
        let k = floor_log2(x / 2);
        lemma_pow2_unfold(k + 1);
        lemma_pow2_unfold(k + 2);
    }
}

pub proof fn lemma_floor_log2_mono(x: nat, z: nat)
    requires
        1 <= x <= z,
    ensures
        floor_log2(x) <= floor_log2(z),
{
    if floor_log2(z) < floor_log2(x) {
        lemma_floor_log2_bounds(x);
        lemma_floor_log2_bounds(z);
        if floor_log2(z) + 1 < floor_log2(x) {
            lemma_pow2_strictly_increases(floor_log2(z) + 1, floor_log2(x));
        }
        assert(false);
    }
}

/// The floor of the base-two logarithm is pinned down by bracketing
/// powers of two.
pub proof fn lemma_floor_log2_is(x: nat, k: nat)
    requires
        pow2(k) <= x < pow2(k + 1),
    ensures
        floor_log2(x) == k,
{
    lemma_pow2_pos(k);
    lemma_floor_log2_bounds(x);
    let f = floor_log2(x);
    if f < k {
        if f + 1 < k {
            lemma_pow2_strictly_increases(f + 1, k);
        }
        assert(false);
    }
    if f > k {
        if k + 1 < f {
            lemma_pow2_strictly_increases(k + 1, f);
        }
        assert(false);
    }
}

/// Executable power of two.
pub fn pow2_u64(e: u64) -> (r: u64)
    requires
        e <= 63,
    ensures
        r == pow2(e as nat),
{
    proof {
        lemma2_to64();
    }
    let mut r: u64 = 1;
    let mut i: u64 = 0;
    while i < e
        invariant
            i <= e <= 63,
            r == pow2(i as nat),
        decreases e - i,
    {
        proof {
            lemma_pow2_unfold((i + 1) as nat);
            if (i as nat) < 62 {
                lemma_pow2_strictly_increases(i as nat, 62);
            }
            lemma2_to64_rest();
        }
        r = r * 2;
        i = i + 1;
    }
    r
}

/// Executable floor of the base-two logarithm.
pub fn floor_log2_u64(x: u64) -> (k: u64)
    requires
        x >= 1,
    ensures
        k == floor_log2(x as nat),
        k <= 63,
{
    proof {
        lemma2_to64();
    }
    let mut v: u64 = x;
    let mut k: u64 = 0;
    while v >= 2
        invariant
            1 <= v,
            k <= 63,
            floor_log2(x as nat) == k + floor_log2(v as nat),
            pow2(k as nat) * v <= x as nat,
        decreases v,
    {
        proof {
            lemma_pow2_unfold((k + 1) as nat);
            assert(pow2((k + 1) as nat) * ((v / 2) as nat) <= pow2(k as nat) * (v as nat))
                by (nonlinear_arith)
                requires
                    pow2((k + 1) as nat) == 2 * pow2(k as nat),
                    2 * ((v / 2) as nat) <= v as nat,
            ;
            if k == 63 {
                // pow2(64) * 1 <= x would exceed u64's range
                lemma2_to64_rest();
                assert(pow2(64) * ((v / 2) as nat) >= pow2(64)) by (nonlinear_arith)
                    requires (v / 2) as nat >= 1,
                ;
                assert(false);
            }
        }
        v = v / 2;
        k = k + 1;
    }
    k
}

/// Fractional bits of the base-two logarithm of `y / 2^31`, most
/// significant bit first, computed by repeated squaring: the result
/// approximates `2^n * log2(y / 2^31)` from below.
pub open spec fn frac_log2(y: nat, n: nat) -> nat
    recommends
        NORM_LO <= y < NORM_HI,
    decreases n,
{
    if n == 0 {
        0
    } else {
        let y2 = (y * y) / (NORM_LO as nat);
        if y2 >= NORM_HI {
            pow2((n - 1) as nat) + frac_log2(y2 / 2, (n - 1) as nat)
        } else {
            frac_log2(y2, (n - 1) as nat)
        }
    }
}

/// Squaring keeps a normalized value inside the working range.
proof fn lemma_square_in_range(y: nat)
    requires
        NORM_LO <= y < NORM_HI,
    ensures
        NORM_LO <= (y * y) / (NORM_LO as nat) < 2 * NORM_HI,
        (y * y) / (NORM_LO as nat) >= NORM_HI ==> NORM_LO <= ((y * y) / (NORM_LO as nat)) / 2
            < NORM_HI,
{
    let sq = y * y;
    assert(2147483648 * 2147483648 <= y * y && y * y <= 4294967295 * 4294967295)
        by (nonlinear_arith)
        requires 2147483648 <= y <= 4294967295,
    ;
    assert(sq / (NORM_LO as nat) >= NORM_LO) by {
        lemma_div_is_ordered((NORM_LO * NORM_LO) as int, sq as int, NORM_LO as int);
    }
}

pub proof fn lemma_frac_log2_bound(y: nat, n: nat)
    requires
        NORM_LO <= y < NORM_HI,
    ensures
        frac_log2(y, n) < pow2(n),
    decreases n,
{
    lemma2_to64();
    if n > 0 {
        lemma_square_in_range(y);
        let y2 = (y * y) / (NORM_LO as nat);
        lemma_pow2_unfold(n);
        if y2 >= NORM_HI {
            lemma_frac_log2_bound(y2 / 2, (n - 1) as nat);
        } else {
            lemma_frac_log2_bound(y2, (n - 1) as nat);
        }
    }
}

pub proof fn lemma_frac_log2_mono(y: nat, z: nat, n: nat)
    requires
        NORM_LO <= y < NORM_HI,
        NORM_LO <= z < NORM_HI,
        y <= z,
    ensures
        frac_log2(y, n) <= frac_log2(z, n),
    decreases n,
{
    if n > 0 {
        lemma_square_in_range(y);
        lemma_square_in_range(z);
        let y2 = (y * y) / (NORM_LO as nat);
        let z2 = (z * z) / (NORM_LO as nat);
        assert(y * y <= z * z) by (nonlinear_arith)
            requires 0 <= y <= z,
        ;
        lemma_div_is_ordered((y * y) as int, (z * z) as int, NORM_LO as int);
        if y2 >= NORM_HI {
            lemma_div_is_ordered(y2 as int, z2 as int, 2);
            lemma_frac_log2_mono(y2 / 2, z2 / 2, (n - 1) as nat);
        } else if z2 >= NORM_HI {
            lemma_frac_log2_bound(y2, (n - 1) as nat);
        } else {
            lemma_frac_log2_mono(y2, z2, (n - 1) as nat);
        }
    }
}

/// A positive value scaled into [2^31, 2^32) by a power of two.
pub open spec fn normalized(x: nat) -> nat
    recommends
        x >= 1,
{
    let k = floor_log2(x);
    if k <= 31 {
        x * pow2((31 - k) as nat)
    } else {
        x / pow2((k - 31) as nat)
    }
}

pub proof fn lemma_normalized_range(x: nat)
    requires
        x >= 1,
    ensures
        NORM_LO <= normalized(x) < NORM_HI,
{
    lemma2_to64();
    lemma_floor_log2_bounds(x);
    let k = floor_log2(x);
    if k <= 31 {
        let p = pow2((31 - k) as nat);
        lemma_pow2_adds(k, (31 - k) as nat);
        lemma_pow2_adds(k + 1, (31 - k) as nat);
        assert(pow2(k) * p <= x * p && x * p < pow2(k + 1) * p) by (nonlinear_arith)
            requires
                pow2(k) <= x < pow2(k + 1),
                p >= 1,
        ;
        assert(pow2(k + 1) * p == pow2((31 - k) as nat) * pow2(k + 1));
    } else {
        let p = pow2((k - 31) as nat);
        lemma_pow2_pos((k - 31) as nat);
        lemma_pow2_subtracts((k - 31) as nat, k);
        lemma_div_is_ordered(pow2(k) as int, x as int, p as int);
        assert(pow2(k) / p == pow2(31));
        lemma_pow2_adds((k - 31) as nat, 32);
        lemma_multiply_divide_lt(x as int, p as int, pow2(32) as int);
    }
}

/// Base-two logarithm with sixteen fractional bits: approximates
/// `65536 * log2(x)` from below, and is monotone in `x`.
pub open spec fn log2fix(x: nat) -> nat
    recommends
        x >= 1,
{
    floor_log2(x) * 65536 + frac_log2(normalized(x), 16)
}

pub proof fn lemma_log2fix_mono(x: nat, z: nat)
    requires
        1 <= x <= z,
    ensures
        log2fix(x) <= log2fix(z),
{
    lemma2_to64();
    lemma_floor_log2_mono(x, z);
    lemma_normalized_range(x);
    lemma_normalized_range(z);
    let kx = floor_log2(x);
    let kz = floor_log2(z);
    if kx == kz {
        if kx <= 31 {
            let p = pow2((31 - kx) as nat);
            assert(x * p <= z * p) by (nonlinear_arith)
                requires x <= z, p >= 0,
            ;
        } else {
            let p = pow2((kx - 31) as nat);
            lemma_pow2_pos((kx - 31) as nat);
            lemma_div_is_ordered(x as int, z as int, p as int);
        }
        lemma_frac_log2_mono(normalized(x), normalized(z), 16);
    } else {
        lemma_frac_log2_bound(normalized(x), 16);
        assert(pow2(16) == 65536);
    }
}

/// Executable Q16 base-two logarithm.
pub fn log2fix_u64(x: u64) -> (r: u64)
    requires
        x >= 1,
    ensures
        r == log2fix(x as nat),
        r <= 63 * 65536 + 65535,
{
    proof {
        lemma2_to64();
        lemma_floor_log2_bounds(x as nat);
        lemma_normalized_range(x as nat);
    }
    let k = floor_log2_u64(x);
    let y: u64 = if k <= 31 {
        let p = pow2_u64(31 - k);
        x * p
    } else {
        let p = pow2_u64(k - 31);
        proof {
            lemma_pow2_pos((k - 31) as nat);
        }
        x / p
    };
    assert(y as nat == normalized(x as nat));
    let mut acc: u64 = 0;
    let mut cur: u64 = y;
    let mut i: u64 = 0;
    while i < 16
        invariant
            i <= 16,
            NORM_LO <= cur < NORM_HI,
            acc < pow2(i as nat),
            frac_log2(y as nat, 16) == acc * pow2((16 - i) as nat) + frac_log2(
                cur as nat,
                (16 - i) as nat,
            ),
        decreases 16 - i,
    {
        proof {
            lemma2_to64();
            lemma_square_in_range(cur as nat);
            assert(cur * cur <= 4294967295 * 4294967295) by (nonlinear_arith)
                requires cur <= 4294967295,
            ;
            lemma_pow2_unfold((16 - i) as nat);
            assert((2 * acc + 1) * pow2((15 - i) as nat) == acc * pow2((16 - i) as nat) + pow2(
                (15 - i) as nat,
            )) by (nonlinear_arith)
                requires pow2((16 - i) as nat) == 2 * pow2((15 - i) as nat),
            ;
            assert((2 * acc) * pow2((15 - i) as nat) == acc * pow2((16 - i) as nat))
                by (nonlinear_arith)
                requires pow2((16 - i) as nat) == 2 * pow2((15 - i) as nat),
            ;
            if (i as nat) < 15 {
                lemma_pow2_strictly_increases(i as nat, 15);
            }
        }
        let sq: u64 = cur * cur;
        let y2: u64 = sq / 2147483648;
        if y2 >= 4294967296 {
            acc = acc * 2 + 1;
            cur = y2 / 2;
        } else {
            acc = acc * 2;
            cur = y2;
        }
        i = i + 1;
    }
    proof {
        lemma2_to64();
    }
    assert(frac_log2(y as nat, 16) == acc * pow2(0) + frac_log2(cur as nat, 0));
    k * 65536 + acc
}

} // verus!
