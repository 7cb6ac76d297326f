//! Mapping orbit points to pixels and counting them in a row-major histogram.
use vstd::prelude::*;
use crate::fixed::{in_window, XMAX, XMIN, YMAX, YMIN};
use crate::orbit::Orbit;
use crate::orbit::{escape_orbit, escapes, escapes_within, lemma_orbit_stops_at_first_escape,
    orbit_len, orbit_points, points_view, z_at};

verus! {

/// The column of `x`: `floor((x - xmin) * width / (xmax - xmin))`.
pub open spec fn column_of(width: nat, x: int) -> int {
    ((x - XMIN) * width) / ((XMAX - XMIN) as int)
}

/// The row of `y`: `floor((y - ymin) * height / (ymax - ymin))`.
pub open spec fn row_of(height: nat, y: int) -> int {
    ((y - YMIN) * height) / ((YMAX - YMIN) as int)
}

/// The histogram cell that a point falls in, if it lies in the window and its pixel on the grid.
pub open spec fn cell_of(width: nat, height: nat, p: (int, int)) -> Option<int> {
    if in_window(p.0, p.1) && column_of(width, p.0) < width && row_of(height, p.1) < height {
        Some(row_of(height, p.1) * width + column_of(width, p.0))
    } else {
        None
    }
}

/// The counters of a histogram as integers.
pub open spec fn counts(v: Seq<u32>) -> Seq<int> {
    Seq::new(v.len(), |i: int| v[i] as int)
}

/// A histogram of `n` cells, all zero.
pub open spec fn zeros(n: nat) -> Seq<int> {
    Seq::new(n, |i: int| 0int)
}

/// Counts one point: the cell it falls in goes up by one; a point off the grid changes nothing.
pub open spec fn add_point(hist: Seq<int>, width: nat, height: nat, p: (int, int)) -> Seq<int> {
    match cell_of(width, height, p) {
        Some(i) => hist.update(i, hist[i] + 1),
        None => hist,
    }
}

/// Counts each point of `pts` in turn.
pub open spec fn add_points(hist: Seq<int>, width: nat, height: nat, pts: Seq<(int, int)>) -> Seq<
    int,
>
    decreases pts.len(),
{
    if pts.len() == 0 {
        hist
    } else {
        add_point(add_points(hist, width, height, pts.drop_last()), width, height, pts.last())
    }
}

/// Counts one sample `c`: its orbit if it escapes within `max_iter` steps, nothing otherwise.
pub open spec fn add_sample(hist: Seq<int>, width: nat, height: nat, max_iter: nat, c: (int, int)) -> Seq<
    int,
> {
    if escapes_within(c, max_iter) {
        add_points(hist, width, height, orbit_points(c, max_iter))
    } else {
        hist
    }
}

/// Counts each sample of `cs` in turn.
pub open spec fn add_samples(
    hist: Seq<int>,
    width: nat,
    height: nat,
    max_iter: nat,
    cs: Seq<(int, int)>,
) -> Seq<int>
    decreases cs.len(),
{
    if cs.len() == 0 {
        hist
    } else {
        add_sample(
            add_samples(hist, width, height, max_iter, cs.drop_last()),
            width,
            height,
            max_iter,
            cs.last(),
        )
    }
}

/// The largest counter, or 0 for an empty histogram.
pub open spec fn max_of(s: Seq<int>) -> int
    decreases s.len(),
{
    if s.len() == 0 {
        0
    } else {
        let m = max_of(s.drop_last());
        if s.last() > m {
            s.last()
        } else {
            m
        }
    }
}

/// A point is counted only where it lies in the window, borders included, and its pixel lies on
/// the grid; the cell is then `row * width + column`, and no other cell changes.
pub proof fn lemma_counted_points_in_window(hist: Seq<int>, width: nat, height: nat, p: (int, int))
    requires
        hist.len() == width * height,
    ensures
        add_point(hist, width, height, p).len() == hist.len(),
        forall|i: int|
            0 <= i < hist.len() && #[trigger] add_point(hist, width, height, p)[i] != hist[i] ==> {
                &&& cell_of(width, height, p) == Some(i)
                &&& XMIN <= p.0 <= XMAX
                &&& YMIN <= p.1 <= YMAX
                &&& 0 <= column_of(width, p.0) < width
                &&& 0 <= row_of(height, p.1) < height
                &&& i == row_of(height, p.1) * width + column_of(width, p.0)
            },
        cell_of(width, height, p) is Some ==> 0 <= cell_of(width, height, p)->0 < hist.len(),
{
    lemma_cell_in_grid(width, height, p);
}

proof fn lemma_cell_in_grid(width: nat, height: nat, p: (int, int))
    ensures
        cell_of(width, height, p) is Some ==> {
            &&& 0 <= column_of(width, p.0) < width
            &&& 0 <= row_of(height, p.1) < height
            &&& 0 <= cell_of(width, height, p)->0 < width * height
        },
{
    if cell_of(width, height, p) is Some {
        let cx = column_of(width, p.0);
        let ry = row_of(height, p.1);
        let w = width as int;
        let h = height as int;
        assert(0 <= (p.0 - XMIN) * w) by (nonlinear_arith)
            requires p.0 - XMIN >= 0, w >= 0;
        assert(0 <= (p.1 - YMIN) * h) by (nonlinear_arith)
            requires p.1 - YMIN >= 0, h >= 0;
        vstd::arithmetic::div_mod::lemma_div_pos_is_pos((p.0 - XMIN) * w, (XMAX - XMIN) as int);
        vstd::arithmetic::div_mod::lemma_div_pos_is_pos((p.1 - YMIN) * h, (YMAX - YMIN) as int);
        assert(0 <= ry * w + cx < w * h) by (nonlinear_arith)
            requires 0 <= cx < w, 0 <= ry < h;
    }
}

/// Every counter stays between its starting value and that value plus the number of points.
pub proof fn lemma_add_points_bounds(hist: Seq<int>, width: nat, height: nat, pts: Seq<(int, int)>)
    requires
        hist.len() == width * height,
    ensures
        add_points(hist, width, height, pts).len() == hist.len(),
        forall|i: int|
            0 <= i < hist.len() ==> hist[i] <= #[trigger] add_points(hist, width, height, pts)[i]
                <= hist[i] + pts.len(),
    decreases pts.len(),
{
    if pts.len() > 0 {
        lemma_add_points_bounds(hist, width, height, pts.drop_last());
        lemma_cell_in_grid(width, height, pts.last());
    }
}

/// Every counter stays between its starting value and that value plus `max_iter` per sample.
pub proof fn lemma_add_samples_bounds(
    hist: Seq<int>,
    width: nat,
    height: nat,
    max_iter: nat,
    cs: Seq<(int, int)>,
)
    requires
        hist.len() == width * height,
    ensures
        add_samples(hist, width, height, max_iter, cs).len() == hist.len(),
        forall|i: int|
            0 <= i < hist.len() ==> hist[i] <= #[trigger] add_samples(
                hist,
                width,
                height,
                max_iter,
                cs,
            )[i] <= hist[i] + cs.len() * max_iter,
    decreases cs.len(),
{
    if cs.len() > 0 {
        let prev = add_samples(hist, width, height, max_iter, cs.drop_last());
        lemma_add_samples_bounds(hist, width, height, max_iter, cs.drop_last());
        let c = cs.last();
        lemma_orbit_stops_at_first_escape(c, max_iter);
        lemma_add_points_bounds(prev, width, height, orbit_points(c, max_iter));
        assert((cs.len() - 1) * max_iter + max_iter == cs.len() * max_iter) by (nonlinear_arith);
    }
}

/// Starting from zero, every counter lies between 0 and `samples * max_iter`.
pub proof fn lemma_counts_bounded(width: nat, height: nat, max_iter: nat, cs: Seq<(int, int)>)
    ensures
        add_samples(zeros(width * height), width, height, max_iter, cs).len() == width * height,
        forall|i: int|
            0 <= i < width * height ==> 0 <= #[trigger] add_samples(
                zeros(width * height),
                width,
                height,
                max_iter,
                cs,
            )[i] <= cs.len() * max_iter,
{
    lemma_add_samples_bounds(zeros(width * height), width, height, max_iter, cs);
}

/// A sample whose orbit stays within radius 2 for all `max_iter` steps adds nothing.
pub proof fn lemma_bounded_orbit_adds_nothing(
    hist: Seq<int>,
    width: nat,
    height: nat,
    max_iter: nat,
    c: (int, int),
)
    requires
        forall|j: nat| 0 < j <= max_iter ==> !escapes(#[trigger] z_at(c, j)),
    ensures
        add_sample(hist, width, height, max_iter, c) == hist,
{
    lemma_orbit_stops_at_first_escape(c, max_iter);
    if escapes_within(c, max_iter) {
        assert(!escapes(z_at(c, orbit_len(c, max_iter))));
    }
}

/// The cell that the point `(x, y)` is counted in on a `width` by `height` grid, if any.
pub fn cell_index(width: usize, height: usize, x: i64, y: i64) -> (r: Option<usize>)
    requires
        width * height <= usize::MAX,
    ensures
        r matches Some(i) ==> cell_of(width as nat, height as nat, (x as int, y as int)) == Some(
            i as int,
        ),
        r is None ==> cell_of(width as nat, height as nat, (x as int, y as int)) is None,
{
    if !(XMIN <= x && x <= XMAX && YMIN <= y && y <= YMAX) {
        return None;
    }
    let dx: u128 = (x as i128 - XMIN as i128) as u128;
    let dy: u128 = (y as i128 - YMIN as i128) as u128;
    proof {
        assert(dx * width <= 12884901888 * 18446744073709551615) by (nonlinear_arith)
            requires dx <= 12884901888, width <= 18446744073709551615;
        assert(dy * height <= 12884901888 * 18446744073709551615) by (nonlinear_arith)
            requires dy <= 12884901888, height <= 18446744073709551615;
    }
    let col: u128 = dx * (width as u128) / 12884901888;
    let row: u128 = dy * (height as u128) / 12884901888;
    if col < width as u128 && row < height as u128 {
        proof {
            lemma_cell_in_grid(width as nat, height as nat, (x as int, y as int));
            assert(row * width + col < width * height) by (nonlinear_arith)
                requires row < height, col < width;
        }
        Some((row as usize) * width + (col as usize))
    } else {
        None
    }
}

/// Counts each point of an orbit in the histogram.
pub fn accumulate_orbit(hist: &mut Vec<u32>, width: usize, height: usize, points: &Vec<(i64, i64)>)
    requires
        width * height <= usize::MAX,
        old(hist)@.len() == width * height,
        forall|i: int| 0 <= i < old(hist)@.len() ==> old(hist)@[i] + points@.len() <= u32::MAX,
    ensures
        counts(final(hist)@) == add_points(
            counts(old(hist)@),
            width as nat,
            height as nat,
            points_view(points@),
        ),
        final(hist)@.len() == old(hist)@.len(),
        forall|i: int|
            0 <= i < old(hist)@.len() ==> final(hist)@[i] <= old(hist)@[i] + points@.len(),
{
    let ghost start = counts(hist@);
    let ghost pts = points_view(points@);
    let mut k: usize = 0;
    while k < points.len()
        invariant
            width * height <= usize::MAX,
            k <= points@.len(),
            pts == points_view(points@),
            hist@.len() == width * height,
            old(hist)@.len() == width * height,
            start == counts(old(hist)@),
            counts(hist@) == add_points(start, width as nat, height as nat, pts.take(k as int)),
            forall|i: int| 0 <= i < hist@.len() ==> hist@[i] <= old(hist)@[i] + k,
            forall|i: int| 0 <= i < old(hist)@.len() ==> old(hist)@[i] + points@.len() <= u32::MAX,
        decreases points@.len() - k,
    {
        let (x, y) = points[k];
        let ghost before = counts(hist@);
        proof {
            assert(pts.take(k + 1).drop_last() =~= pts.take(k as int));
            assert(pts.take(k + 1).last() == (x as int, y as int));
        }
        proof {
            lemma_cell_in_grid(width as nat, height as nat, (x as int, y as int));
        }
        match cell_index(width, height, x, y) {
            Some(i) => {
                let v = hist[i];
                hist.set(i, v + 1);
                proof {
                    assert(counts(hist@) =~= before.update(i as int, before[i as int] + 1));
                }
            },
            None => {},
        }
        k = k + 1;
    }
    proof {
        assert(pts.take(points@.len() as int) =~= pts);
    }
}

/// Counts one sample `c = (cr, ci)`: iterates its orbit and, if it escapes, counts its points.
pub fn accumulate_sample(
    hist: &mut Vec<u32>,
    width: usize,
    height: usize,
    max_iter: usize,
    cr: i64,
    ci: i64,
)
    requires
        width * height <= usize::MAX,
        old(hist)@.len() == width * height,
        in_window(cr as int, ci as int),
        forall|i: int| 0 <= i < old(hist)@.len() ==> old(hist)@[i] + max_iter <= u32::MAX,
    ensures
        counts(final(hist)@) == add_sample(
            counts(old(hist)@),
            width as nat,
            height as nat,
            max_iter as nat,
            (cr as int, ci as int),
        ),
        final(hist)@.len() == old(hist)@.len(),
        forall|i: int| 0 <= i < old(hist)@.len() ==> final(hist)@[i] <= old(hist)@[i] + max_iter,
{
    let orbit: Orbit = escape_orbit(cr, ci, max_iter);
    proof {
        lemma_orbit_stops_at_first_escape((cr as int, ci as int), max_iter as nat);
        assert(orbit.points@.len() == points_view(orbit.points@).len());
    }
    if orbit.escaped {
        accumulate_orbit(hist, width, height, &orbit.points);
    }
}

/// Counts the given samples, in order, into a histogram that starts at zero.
pub fn accumulate_samples(width: usize, height: usize, max_iter: usize, cs: &Vec<(i64, i64)>) -> (r:
    Vec<u32>)
    requires
        width * height <= usize::MAX,
        cs@.len() * max_iter <= u32::MAX,
        forall|j: int| 0 <= j < cs@.len() ==> in_window(#[trigger] cs@[j].0 as int, cs@[j].1 as int),
    ensures
        counts(r@) == add_samples(
            zeros(width as nat * height as nat),
            width as nat,
            height as nat,
            max_iter as nat,
            points_view(cs@),
        ),
{
    let mut hist = new_histogram(width * height);
    let ghost pts = points_view(cs@);
    let mut k: usize = 0;
    while k < cs.len()
        invariant
            width * height <= usize::MAX,
            k <= cs@.len(),
            pts == points_view(cs@),
            hist@.len() == width * height,
            cs@.len() * max_iter <= u32::MAX,
            forall|j: int| 0 <= j < cs@.len() ==> in_window(#[trigger] cs@[j].0 as int, cs@[j].1 as int),
            counts(hist@) == add_samples(
                zeros(width as nat * height as nat),
                width as nat,
                height as nat,
                max_iter as nat,
                pts.take(k as int),
            ),
            forall|i: int| 0 <= i < hist@.len() ==> hist@[i] <= k * max_iter,
        decreases cs@.len() - k,
    {
        let (cr, ci) = cs[k];
        proof {
            assert(in_window(cs@[k as int].0 as int, cs@[k as int].1 as int));
            assert(pts.take(k + 1).drop_last() =~= pts.take(k as int));
            assert(pts.take(k + 1).last() == (cr as int, ci as int));
            assert((k + 1) * max_iter <= cs@.len() * max_iter) by (nonlinear_arith)
                requires k + 1 <= cs@.len();
            assert(k * max_iter + max_iter == (k + 1) * max_iter) by (nonlinear_arith);
        }
        accumulate_sample(&mut hist, width, height, max_iter, cr, ci);
        k = k + 1;
    }
    proof {
        assert(pts.take(cs@.len() as int) =~= pts);
    }
    hist
}

/// A histogram of `n` cells, all zero.
pub fn new_histogram(n: usize) -> (r: Vec<u32>)
    ensures
        counts(r@) == zeros(n as nat),
        r@.len() == n,
        forall|i: int| 0 <= i < n ==> r@[i] == 0,
{
    let mut v: Vec<u32> = Vec::with_capacity(n);
    let mut k: usize = 0;
    while k < n
        invariant
            k <= n,
            v@.len() == k,
            forall|i: int| 0 <= i < k ==> v@[i] == 0,
        decreases n - k,
    {
        v.push(0);
        k = k + 1;
    }
    proof {
        assert(counts(v@) =~= zeros(n as nat));
    }
    v
}

/// The largest counter of a histogram, or 0 when it has no cells.
pub fn max_count(hist: &Vec<u32>) -> (r: u32)
    ensures
        r as int == max_of(counts(hist@)),
        forall|i: int| 0 <= i < hist@.len() ==> hist@[i] <= r,
        hist@.len() > 0 ==> exists|i: int| 0 <= i < hist@.len() && hist@[i] == r,
        hist@.len() == 0 ==> r == 0,
{
    let ghost cs = counts(hist@);
    let mut m: u32 = 0;
    let mut k: usize = 0;
    while k < hist.len()
        invariant
            k <= hist@.len(),
            cs == counts(hist@),
            m as int == max_of(cs.take(k as int)),
            forall|i: int| 0 <= i < k ==> hist@[i] <= m,
            k > 0 ==> exists|i: int| 0 <= i < k && hist@[i] == m,
            k == 0 ==> m == 0,
        decreases hist@.len() - k,
    {
        proof {
            assert(cs.take(k + 1).drop_last() =~= cs.take(k as int));
        }
        if hist[k] > m {
            m = hist[k];
        }
        k = k + 1;
    }
    proof {
        assert(cs.take(hist@.len() as int) =~= cs);
    }
    m
}

/// The largest counter of an all-zero histogram is 0.
pub proof fn lemma_max_of_zeros(n: nat)
    ensures
        max_of(zeros(n)) == 0,
    decreases n,
{
    if n > 0 {
        assert(zeros(n).drop_last() =~= zeros((n - 1) as nat));
        lemma_max_of_zeros((n - 1) as nat);
    }
}

/// `max_of` bounds every counter from above.
pub proof fn lemma_max_of_bounds(s: Seq<int>)
    ensures
        forall|i: int| 0 <= i < s.len() ==> #[trigger] s[i] <= max_of(s),
    decreases s.len(),
{
    if s.len() > 0 {
        let t = s.drop_last();
        lemma_max_of_bounds(t);
        assert forall|i: int| 0 <= i < s.len() implies #[trigger] s[i] <= max_of(s) by {
            if i < s.len() - 1 {
                assert(s[i] == t[i]);
            }
        }
    }
}

/// After one increment of a cell of a histogram of non-negative counters, the maximum is at
/// least 1.
pub proof fn lemma_max_after_increment(hist: Seq<int>, i: int)
    requires
        0 <= i < hist.len(),
        forall|j: int| 0 <= j < hist.len() ==> hist[j] >= 0,
    ensures
        max_of(hist.update(i, hist[i] + 1)) >= 1,
{
    let s = hist.update(i, hist[i] + 1);
    lemma_max_of_bounds(s);
    assert(s[i] >= 1);
}

} // verus!
