//! The Monte Carlo run: random samples from the window, counted into a histogram.
use vstd::prelude::*;
use crate::fixed::{rand_range, rand_range_spec, XMAX, XMIN, YMAX, YMIN};
use crate::histogram::{accumulate_sample, add_samples, counts, max_count, max_of, new_histogram, zeros};
use crate::pgm::{encode_pgm, pgm_text};
use crate::rng::{draw_from, state_after, xorshift, Rng};

verus! {

/// The `j`-th sample drawn from state `s`: `cr` from the first draw, `ci` from the second.
pub open spec fn sample_at(s: u64, j: int) -> (int, int) {
    (
        rand_range_spec(XMIN as int, XMAX as int, draw_from(state_after(s, (2 * j) as nat)) as int),
        rand_range_spec(YMIN as int, YMAX as int, draw_from(state_after(s, (2 * j + 1) as nat)) as int),
    )
}

/// The first `n` samples drawn from state `s`.
pub open spec fn samples_from(s: u64, n: nat) -> Seq<(int, int)> {
    Seq::new(n, |j: int| sample_at(s, j))
}

/// Draws `samples` points uniformly from the window and counts the orbit of each one that
/// escapes within `max_iter` steps into a `width` by `height` histogram, row-major.
pub fn buddhabrot(width: usize, height: usize, samples: usize, max_iter: usize, rng: &mut Rng) -> (r:
    Vec<u32>)
    requires
        width * height <= usize::MAX,
        samples * max_iter <= u32::MAX,
    ensures
        counts(r@) == add_samples(
            zeros(width as nat * height as nat),
            width as nat,
            height as nat,
            max_iter as nat,
            samples_from(old(rng)@, samples as nat),
        ),
        r@.len() == width * height,
        final(rng)@ == state_after(old(rng)@, 2 * samples as nat),
{
    let ghost s0 = rng@;
    let mut hist = new_histogram(width * height);
    let mut k: usize = 0;
    while k < samples
        invariant
            width * height <= usize::MAX,
            k <= samples,
            samples * max_iter <= u32::MAX,
            hist@.len() == width * height,
            rng@ == state_after(s0, 2 * k as nat),
            counts(hist@) == add_samples(
                zeros(width as nat * height as nat),
                width as nat,
                height as nat,
                max_iter as nat,
                samples_from(s0, k as nat),
            ),
            forall|i: int| 0 <= i < hist@.len() ==> hist@[i] <= k * max_iter,
        decreases samples - k,
    {
        let rx = rng.next_u32();
        let cr = rand_range(XMIN, XMAX, rx);
        let ry = rng.next_u32();
        let ci = rand_range(YMIN, YMAX, ry);
        proof {
            assert(state_after(s0, (2 * k + 1) as nat) == xorshift(state_after(s0, 2 * k as nat)));
            assert(state_after(s0, (2 * k + 2) as nat) == xorshift(
                state_after(s0, (2 * k + 1) as nat),
            ));
            assert(samples_from(s0, (k + 1) as nat).drop_last() =~= samples_from(s0, k as nat));
            assert(samples_from(s0, (k + 1) as nat).last() == (cr as int, ci as int));
            assert((k + 1) * max_iter <= samples * max_iter) by (nonlinear_arith)
                requires k + 1 <= samples;
            assert(k * max_iter + max_iter == (k + 1) * max_iter) by (nonlinear_arith);
        }
        accumulate_sample(&mut hist, width, height, max_iter, cr, ci);
        k = k + 1;
    }
    hist
}

/// The parameters of a run.
pub struct Config {
    /// Image columns.
    pub width: usize,
    /// Image rows.
    pub height: usize,
    /// Number of Monte Carlo draws.
    pub samples: usize,
    /// Escape-time iteration bound.
    pub max_iter: usize,
}

impl Config {
    /// A 1000 by 1000 image from a million samples of at most 1000 steps each.
    pub fn standard() -> (r: Config)
        ensures
            r.width == 1000 && r.height == 1000 && r.samples == 1000000 && r.max_iter == 1000,
    {
        Config { width: 1000, height: 1000, samples: 1000000, max_iter: 1000 }
    }

    /// Whether the grid fits in memory's index range and no counter can exceed `u32::MAX`.
    pub fn is_supported(&self) -> (r: bool)
        ensures
            r == (self.width * self.height <= usize::MAX && self.samples * self.max_iter
                <= u32::MAX),
    {
        let cells = self.width.checked_mul(self.height);
        let steps = self.samples.checked_mul(self.max_iter);
        match (cells, steps) {
            (Some(_), Some(n)) => n <= u32::MAX as usize,
            _ => false,
        }
    }

    /// Runs the sampler and returns the image text of the histogram, declaring its true maximum.
    pub fn render(&self, rng: &mut Rng) -> (r: Vec<u8>)
        requires
            self.width * self.height <= usize::MAX,
            self.samples * self.max_iter <= u32::MAX,
        ensures
            exists|hist: Seq<u32>|
                {
                    &&& #[trigger] counts(hist) == add_samples(
                        zeros(self.width as nat * self.height as nat),
                        self.width as nat,
                        self.height as nat,
                        self.max_iter as nat,
                        samples_from(old(rng)@, self.samples as nat),
                    )
                    &&& r@ == pgm_text(
                        self.width as nat,
                        self.height as nat,
                        max_of(counts(hist)) as nat,
                        hist,
                    )
                },
            final(rng)@ == state_after(old(rng)@, 2 * self.samples as nat),
    {
        let hist = buddhabrot(self.width, self.height, self.samples, self.max_iter, rng);
        let max = max_count(&hist);
        let r = encode_pgm(self.width, self.height, max, &hist);
        r
    }
}

} // verus!
