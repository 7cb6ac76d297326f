//! Escape-time iteration of `z <- z^2 + c` from `z = 0`.
use vstd::prelude::*;
use crate::fixed::{fx_mul, fx_mul_spec, in_window, lemma_fx_mul_bounds, SCALE};

verus! {

/// One step of the recurrence: `(zr^2 - zi^2 + cr, 2 zr zi + ci)`, each product in fixed point.
pub open spec fn step(z: (int, int), c: (int, int)) -> (int, int) {
    (fx_mul_spec(z.0, z.0) - fx_mul_spec(z.1, z.1) + c.0, fx_mul_spec(2 * z.0, z.1) + c.1)
}

/// The `k`-th point of the orbit of `c`; the orbit starts at `z = 0`.
pub open spec fn z_at(c: (int, int), k: nat) -> (int, int)
    decreases k,
{
    if k == 0 {
        (0, 0)
    } else {
        step(z_at(c, (k - 1) as nat), c)
    }
}

/// `|z|^2` beyond which an orbit has escaped: 4, in squared fixed-point steps.
pub const ESCAPE_BOUND: i128 = 73786976294838206464;

/// Whether a point lies outside the disk of radius 2: `|z|^2 > 4`.
pub open spec fn escapes(z: (int, int)) -> bool {
    z.0 * z.0 + z.1 * z.1 > ESCAPE_BOUND
}

/// How many points the orbit records when steps `k + 1 ..= m` are still to come.
pub open spec fn orbit_len_from(c: (int, int), k: nat, m: nat) -> nat
    decreases m - k,
{
    if k >= m {
        m
    } else if escapes(z_at(c, k + 1)) {
        k + 1
    } else {
        orbit_len_from(c, k + 1, m)
    }
}

/// The number of points recorded for `c` with at most `m` steps: the first escape step, or `m`.
pub open spec fn orbit_len(c: (int, int), m: nat) -> nat {
    orbit_len_from(c, 0, m)
}

/// Whether the orbit of `c` escapes within `m` steps.
pub open spec fn escapes_within(c: (int, int), m: nat) -> bool {
    orbit_len(c, m) > 0 && escapes(z_at(c, orbit_len(c, m)))
}

/// The recorded orbit: `z_1, ..., z_n` with `n = orbit_len(c, m)`.
pub open spec fn orbit_points(c: (int, int), m: nat) -> Seq<(int, int)> {
    Seq::new(orbit_len(c, m), |j: int| z_at(c, (j + 1) as nat))
}

/// Fixed-point pairs read as pairs of integers.
pub open spec fn points_view(v: Seq<(i64, i64)>) -> Seq<(int, int)> {
    Seq::new(v.len(), |j: int| (v[j].0 as int, v[j].1 as int))
}

/// The orbit of one sample: the points it visited, and whether it left the radius-2 disk.
pub struct Orbit {
    pub points: Vec<(i64, i64)>,
    pub escaped: bool,
}

proof fn lemma_orbit_len_from(c: (int, int), k: nat, m: nat)
    requires
        k <= m,
    ensures
        k <= orbit_len_from(c, k, m) <= m,
        forall|j: nat| k < j < orbit_len_from(c, k, m) ==> !escapes(#[trigger] z_at(c, j)),
        orbit_len_from(c, k, m) < m ==> escapes(z_at(c, orbit_len_from(c, k, m))),
        orbit_len_from(c, k, m) == m && m > k ==> (escapes(z_at(c, m)) || forall|j: nat|
            k < j <= m ==> !escapes(#[trigger] z_at(c, j))),
    decreases m - k,
{
    if k < m && !escapes(z_at(c, k + 1)) {
        lemma_orbit_len_from(c, k + 1, m);
    }
}

/// The recorded orbit stops at the first escape: no earlier point escapes, the last point of an
/// escaping orbit lies outside radius 2, and an orbit that never escapes runs all `m` steps.
pub proof fn lemma_orbit_stops_at_first_escape(c: (int, int), m: nat)
    ensures
        orbit_len(c, m) <= m,
        forall|j: nat| 0 < j < orbit_len(c, m) ==> !escapes(#[trigger] z_at(c, j)),
        escapes_within(c, m) ==> escapes(orbit_points(c, m).last()),
        !escapes_within(c, m) ==> orbit_len(c, m) == m,
        !escapes_within(c, m) ==> forall|j: nat| 0 < j <= m ==> !escapes(#[trigger] z_at(c, j)),
{
    lemma_orbit_len_from(c, 0, m);
    if !escapes_within(c, m) {
        assert(orbit_len(c, m) == m);
        if m > 0 {
            assert(!escapes(z_at(c, m)));
        }
    }
}

proof fn lemma_small_coords(x: int, y: int)
    requires
        x * x + y * y <= 4 * (SCALE as int) * (SCALE as int),
    ensures
        -2 * (SCALE as int) <= x <= 2 * (SCALE as int),
        -2 * (SCALE as int) <= y <= 2 * (SCALE as int),
{
    let s = SCALE as int;
    assert(x * x >= 0 && y * y >= 0) by (nonlinear_arith);
    assert(-2 * s <= x <= 2 * s) by (nonlinear_arith)
        requires x * x <= 4 * s * s, s > 0;
    assert(-2 * s <= y <= 2 * s) by (nonlinear_arith)
        requires y * y <= 4 * s * s, s > 0;
}

/// Iterates `z <- z^2 + c` from `z = 0` at most `max_iter` times, recording each new `z`, and
/// stops right after the first point with `|z|^2 > 4`.
pub fn escape_orbit(cr: i64, ci: i64, max_iter: usize) -> (r: Orbit)
    requires
        in_window(cr as int, ci as int),
    ensures
        points_view(r.points@) == orbit_points((cr as int, ci as int), max_iter as nat),
        r.escaped == escapes_within((cr as int, ci as int), max_iter as nat),
{
    let ghost c = (cr as int, ci as int);
    let ghost m = max_iter as nat;
    let ghost s = SCALE as int;
    let mut zr: i64 = 0;
    let mut zi: i64 = 0;
    let mut points: Vec<(i64, i64)> = Vec::with_capacity(max_iter);
    let mut escaped = false;
    let mut i: usize = 0;
    while i < max_iter && !escaped
        invariant
            i <= max_iter,
            points@.len() == i,
            (zr as int, zi as int) == z_at(c, i as nat),
            points_view(points@) == Seq::new(i as nat, |j: int| z_at(c, (j + 1) as nat)),
            escaped ==> i > 0 && escapes(z_at(c, i as nat)) && orbit_len(c, m) == i,
            !escaped ==> orbit_len_from(c, i as nat, m) == orbit_len(c, m),
            !escaped ==> (i == 0 || !escapes(z_at(c, i as nat))),
            !escaped ==> zr * zr + zi * zi <= 4 * s * s,
            in_window(cr as int, ci as int),
            s == SCALE,
            c == (cr as int, ci as int),
            m == max_iter as nat,
        decreases max_iter - i,
    {
        proof {
            lemma_small_coords(zr as int, zi as int);
            lemma_fx_mul_bounds(zr as int, zr as int, 2, 2);
            lemma_fx_mul_bounds(zi as int, zi as int, 2, 2);
            lemma_fx_mul_bounds(2 * zr, zi as int, 4, 2);
        }
        let sr = fx_mul(zr, zr);
        let si = fx_mul(zi, zi);
        let pi = fx_mul(2 * zr, zi);
        let nr = sr - si + cr;
        let ni = pi + ci;
        proof {
            assert(0 <= nr * nr <= 100 * s * s) by (nonlinear_arith)
                requires -10 * s <= nr <= 10 * s, s > 0;
            assert(0 <= ni * ni <= 100 * s * s) by (nonlinear_arith)
                requires -10 * s <= ni <= 10 * s, s > 0;
        }
        let ghost prev = points@;
        points.push((nr, ni));
        proof {
            assert(z_at(c, (i + 1) as nat) == (nr as int, ni as int));
            assert(points_view(points@)[i as int] == (nr as int, ni as int));
            assert forall|j: int| 0 <= j < i + 1 implies #[trigger] points_view(points@)[j] == z_at(c, (j + 1) as nat) by {
                if j < i {
                    assert(points@[j] == prev[j]);
                    assert(points_view(prev)[j] == z_at(c, (j + 1) as nat));
                }
            }
            assert(points_view(points@) =~= Seq::new((i + 1) as nat, |j: int| z_at(c, (j + 1) as nat)));
        }
        let mag: i128 = (nr as i128) * (nr as i128) + (ni as i128) * (ni as i128);
        zr = nr;
        zi = ni;
        i = i + 1;
        if mag > ESCAPE_BOUND {
            escaped = true;
        }
    }
    proof {
        if !escaped {
            assert(i == max_iter);
        }
    }
    Orbit { points, escaped }
}

} // verus!
