//! Fixed-point reals with 32 fractional bits, and the sampled window of the plane.
use vstd::prelude::*;

verus! {

/// One unit of the plane, in fixed-point steps.
pub const SCALE: i64 = 4294967296;

/// Left edge of the window (-2.0).
pub const XMIN: i64 = -8589934592;

/// Right edge of the window (1.0).
pub const XMAX: i64 = 4294967296;

/// Bottom edge of the window (-1.5).
pub const YMIN: i64 = -6442450944;

/// Top edge of the window (1.5).
pub const YMAX: i64 = 6442450944;

/// The product of two fixed-point values, rounded toward negative infinity.
pub open spec fn fx_mul_spec(a: int, b: int) -> int {
    (a * b) / (SCALE as int)
}

/// Whether a point lies in the window, borders included.
pub open spec fn in_window(x: int, y: int) -> bool {
    XMIN <= x <= XMAX && YMIN <= y <= YMAX
}

/// `a + (b - a) * u` for the fraction `u = r / 2^32`, rounded down.
pub open spec fn rand_range_spec(a: int, b: int, r: int) -> int {
    a + ((b - a) * r) / (SCALE as int)
}

proof fn lemma_floor_div_neg(p: int)
    requires
        p < 0,
    ensures
        ({
            let q = (-p) / (SCALE as int);
            let m = (-p) % (SCALE as int);
            p / (SCALE as int) == if m == 0 { -q } else { -q - 1 }
        }),
{
    let s = SCALE as int;
    let q = (-p) / s;
    let m = (-p) % s;
    vstd::arithmetic::div_mod::lemma_fundamental_div_mod(-p, s);
    if m == 0 {
        assert(p == (-q) * s + 0) by (nonlinear_arith)
            requires -p == s * q + m, m == 0;
        vstd::arithmetic::div_mod::lemma_fundamental_div_mod_converse(p, s, -q, 0);
    } else {
        assert(p == (-q - 1) * s + (s - m)) by (nonlinear_arith)
            requires -p == s * q + m;
        vstd::arithmetic::div_mod::lemma_fundamental_div_mod_converse(p, s, -q - 1, s - m);
    }
}

/// Bounds of a quotient by `SCALE` from bounds of the dividend.
pub proof fn lemma_div_scale_bounds(p: int, k: int)
    requires
        0 <= k,
        -k * (SCALE as int) <= p <= k * (SCALE as int),
    ensures
        -k <= p / (SCALE as int) <= k,
{
    let s = SCALE as int;
    vstd::arithmetic::div_mod::lemma_fundamental_div_mod(p, s);
    let q = p / s;
    let m = p % s;
    assert(-k <= q <= k) by (nonlinear_arith)
        requires p == s * q + m, 0 <= m < s, -k * s <= p <= k * s, s > 0;
}

/// Bounds of a fixed-point product from bounds of its factors.
pub proof fn lemma_fx_mul_bounds(a: int, b: int, ka: int, kb: int)
    requires
        0 <= ka,
        0 <= kb,
        -ka * (SCALE as int) <= a <= ka * (SCALE as int),
        -kb * (SCALE as int) <= b <= kb * (SCALE as int),
    ensures
        -ka * kb * (SCALE as int) <= fx_mul_spec(a, b) <= ka * kb * (SCALE as int),
{
    let s = SCALE as int;
    assert(-(ka * kb * s) * s <= a * b <= (ka * kb * s) * s) by (nonlinear_arith)
        requires -ka * s <= a <= ka * s, -kb * s <= b <= kb * s, s > 0, 0 <= ka, 0 <= kb;
    lemma_div_scale_bounds(a * b, ka * kb * s);
    assert(-ka * kb * s == -(ka * kb * s)) by (nonlinear_arith);
}

/// Fixed-point multiplication, rounding toward negative infinity.
pub fn fx_mul(a: i64, b: i64) -> (r: i64)
    requires
        -16 * SCALE <= a <= 16 * SCALE,
        -16 * SCALE <= b <= 16 * SCALE,
    ensures
        r == fx_mul_spec(a as int, b as int),
{
    proof {
        let s = SCALE as int;
        assert(-256 * s * s <= a * b <= 256 * s * s) by (nonlinear_arith)
            requires -16 * s <= a <= 16 * s, -16 * s <= b <= 16 * s, s > 0;
        lemma_div_scale_bounds(a * b, 256 * s);
    }
    let p: i128 = (a as i128) * (b as i128);
    if p >= 0 {
        (p / 4294967296) as i64
    } else {
        let n: i128 = -p;
        let q: i128 = n / 4294967296;
        let m: i128 = n % 4294967296;
        proof {
            lemma_floor_div_neg(p as int);
        }
        if m == 0 {
            (-q) as i64
        } else {
            (-q - 1) as i64
        }
    }
}

/// Maps a random 32-bit draw `r`, read as the fraction `r / 2^32` of `[0, 1)`,
/// linearly onto `[a, b)`.
pub fn rand_range(a: i64, b: i64, r: u32) -> (v: i64)
    requires
        a < b,
        b - a <= 16 * SCALE,
    ensures
        v == rand_range_spec(a as int, b as int, r as int),
        a <= v < b,
{
    let d: i128 = (b as i128) - (a as i128);
    proof {
        let s = SCALE as int;
        assert(0 <= d * r < d * s) by (nonlinear_arith)
            requires 0 < d, 0 <= r < s, s == 4294967296;
    }
    let p: i128 = d * (r as i128);
    proof {
        let s = SCALE as int;
        vstd::arithmetic::div_mod::lemma_fundamental_div_mod(p as int, s);
        let q = (p as int) / s;
        assert(0 <= q < d) by (nonlinear_arith)
            requires p == s * q + (p as int) % s, 0 <= (p as int) % s < s, 0 <= p < d * s, s > 0;
    }
    let q: i128 = p / 4294967296;
    (a as i128 + q) as i64
}

} // verus!
