//! Cutting a screen into horizontal bands, the unit of parallel work.

use vstd::prelude::*;
use crate::screen::Screen;

verus! {

/// A horizontal slice of a screen: the rows from `row_start` up to, and not
/// including, `row_end`. `index` is the band's place in the stitched image.
#[derive(Clone, Copy, Debug, PartialEq, Eq, Structural)]
pub struct Band {
    pub index: usize,
    pub row_start: u32,
    pub row_end: u32,
}

impl Band {
    /// Number of rows in the band.
    pub open spec fn rows(self) -> int {
        self.row_end - self.row_start
    }

    /// Whether row `y` of the parent screen belongs to the band.
    pub open spec fn holds_row(self, y: int) -> bool {
        self.row_start <= y < self.row_end
    }
}

/// Sum of the rows of all `bands`.
pub open spec fn total_rows(bands: Seq<Band>) -> int
    decreases bands.len(),
{
    if bands.len() == 0 {
        0
    } else {
        total_rows(bands.drop_last()) + bands.last().rows()
    }
}

impl Screen {
    /// The grid of the sub-camera that renders the rows between `row_start`
    /// and `row_end`, whichever of the two is larger: same width, one row per
    /// row in between.
    pub open spec fn subdivided(self, row_start: u32, row_end: u32) -> Screen {
        Screen {
            res_width: self.res_width,
            res_height: if row_start <= row_end {
                (row_end - row_start) as u32
            } else {
                (row_start - row_end) as u32
            },
        }
    }

    /// Rows in each band but the last when the screen is cut into `n` bands.
    pub open spec fn band_step(self, n: int) -> int {
        self.res_height as int / n
    }

    /// First row of band `i` when the screen is cut into `n` bands.
    pub open spec fn band_start(self, n: int, i: int) -> int {
        i * self.band_step(n)
    }

    /// Band `i` of the cut into `n` bands: bands are `band_step` rows high,
    /// and the last one also takes the rows the division left over.
    pub open spec fn band(self, n: int, i: int) -> Band {
        Band {
            index: i as usize,
            row_start: self.band_start(n, i) as u32,
            row_end: if i == n - 1 {
                self.res_height
            } else {
                self.band_start(n, i + 1) as u32
            },
        }
    }

    /// Number of the band that row `y` falls into when the screen is cut into
    /// `n` bands.
    pub open spec fn band_of_row(self, n: int, y: int) -> int {
        if self.band_step(n) == 0 || y / self.band_step(n) >= n - 1 {
            n - 1
        } else {
            y / self.band_step(n)
        }
    }

    /// The cut of the screen into `n` bands, top to bottom.
    pub open spec fn bands(self, n: int) -> Seq<Band> {
        Seq::new(n as nat, |i: int| self.band(n, i))
    }

    /// The grid of a sub-camera for the given row range.
    pub fn subdivide(&self, row_start: u32, row_end: u32) -> (child: Screen)
        ensures
            child == self.subdivided(row_start, row_end),
    {
        let rows: u32 = if row_start <= row_end {
            row_end - row_start
        } else {
            row_start - row_end
        };
        Screen { res_width: self.res_width, res_height: rows }
    }

    /// Cuts the screen into `n` nearly equal bands, tagged `0..n` from the top.
    pub fn split(&self, n: usize) -> (bands: Vec<Band>)
        requires
            1 <= n <= u32::MAX,
        ensures
            bands@ == self.bands(n as int),
    {
        let count: u32 = n as u32;
        let step: u32 = self.res_height / count;
        let mut bands: Vec<Band> = Vec::new();
        let mut last_row_end: u32 = 0;
        let mut i: usize = 0;
        proof {
            self.lemma_band_bounds(n as int);
        }
        while i < n - 1
            invariant
                1 <= n <= u32::MAX,
                i <= n - 1,
                step == self.band_step(n as int),
                last_row_end == i * step,
                forall|j: int, k: int|
                    0 <= j <= k <= n ==> 0 <= #[trigger] self.band_start(n as int, j)
                        <= #[trigger] self.band_start(n as int, k) <= self.res_height,
                bands@ == Seq::new(i as nat, |k: int| self.band(n as int, k)),
            decreases n - 1 - i,
        {
            assert(self.band_start(n as int, i as int) <= self.band_start(n as int, i + 1)
                <= self.res_height);
            assert((i + 1) * step == i * step + step) by (nonlinear_arith);
            bands.push(Band { index: i, row_start: last_row_end, row_end: last_row_end + step });
            last_row_end = last_row_end + step;
            i = i + 1;
            assert(bands@ =~= Seq::new(i as nat, |k: int| self.band(n as int, k)));
        }
        bands.push(Band { index: n - 1, row_start: last_row_end, row_end: self.res_height });
        assert(bands@ =~= self.bands(n as int));
        bands
    }

    /// Band boundaries never leave the screen, and a later band never starts
    /// above an earlier one.
    pub proof fn lemma_band_bounds(self, n: int)
        requires
            n >= 1,
        ensures
            self.band_step(n) >= 0,
            self.band_start(n, 0) == 0,
            forall|j: int, k: int|
                0 <= j <= k <= n ==> 0 <= #[trigger] self.band_start(n, j)
                    <= #[trigger] self.band_start(n, k) <= self.res_height,
    {
        let h = self.res_height as int;
        let step = self.band_step(n);
        vstd::arithmetic::div_mod::lemma_fundamental_div_mod(h, n);
        vstd::arithmetic::div_mod::lemma_mod_bound(h, n);
        vstd::arithmetic::div_mod::lemma_div_pos_is_pos(h, n);
        assert(0 * step == 0);
        assert forall|j: int, k: int| 0 <= j <= k <= n implies 0 <= #[trigger] self.band_start(
            n,
            j,
        ) <= #[trigger] self.band_start(n, k) <= h by {
            assert(0 <= j * step <= k * step <= n * step) by (nonlinear_arith)
                requires
                    0 <= j <= k <= n,
                    step >= 0,
            ;
        }
    }

    /// A cut into `n >= 1` bands partitions the rows of the screen: the bands
    /// are numbered `0..n`, the first starts at row 0, each starts where the one
    /// before ends, the last ends at the last row, every row lies in exactly
    /// one band, and the band heights add up to the screen height.
    pub proof fn lemma_split_partitions(self, n: int)
        requires
            1 <= n <= usize::MAX,
        ensures
            self.bands(n).len() == n,
            forall|i: int| 0 <= i < n ==> (#[trigger] self.bands(n)[i]).index == i,
            self.bands(n)[0].row_start == 0,
            self.bands(n)[n - 1].row_end == self.res_height,
            forall|i: int|
                0 <= i < n ==> (#[trigger] self.bands(n)[i]).row_start <= self.bands(n)[i].row_end,
            forall|i: int|
                0 <= i < n - 1 ==> (#[trigger] self.bands(n)[i]).row_end == self.bands(n)[i
                    + 1].row_start,
            forall|y: int|
                0 <= y < self.res_height ==> 0 <= #[trigger] self.band_of_row(n, y) < n
                    && self.bands(n)[self.band_of_row(n, y)].holds_row(y),
            forall|y: int, i: int|
                0 <= i < n && #[trigger] self.bands(n)[i].holds_row(y) ==> i == self.band_of_row(
                    n,
                    y,
                ),
            total_rows(self.bands(n)) == self.res_height,
    {
        let bands = self.bands(n);
        let step = self.band_step(n);
        let h = self.res_height as int;
        self.lemma_band_bounds(n);
        assert forall|i: int| 0 <= i < n implies bands[i].row_start == i * step && bands[i].row_end
            == (if i == n - 1 {
            h
        } else {
            (i + 1) * step
        }) && bands[i].row_start <= bands[i].row_end by {
            assert(0 <= self.band_start(n, i) <= self.band_start(n, i + 1) <= h);
        }
        assert forall|y: int| 0 <= y < h implies 0 <= #[trigger] self.band_of_row(n, y) < n
            && bands[self.band_of_row(n, y)].holds_row(y) by {
            self.lemma_band_of_row(n, y);
        }
        assert forall|y: int, i: int| 0 <= i < n && #[trigger] bands[i].holds_row(y) implies i
            == self.band_of_row(n, y) by {
            let j = self.band_of_row(n, y);
            self.lemma_band_of_row(n, y);
            if i < j {
                assert(self.band_start(n, i + 1) <= self.band_start(n, j));
            }
            if j < i {
                assert(self.band_start(n, j + 1) <= self.band_start(n, i));
            }
        }
        self.lemma_prefix_rows(n, n);
        assert(bands.take(n) =~= bands);
    }

    /// Where band `i` of a cut into `n` bands starts and ends.
    pub proof fn lemma_band(self, n: int, i: int)
        requires
            1 <= n,
            0 <= i < n,
        ensures
            self.bands(n)[i].row_start == self.band_start(n, i),
            self.bands(n)[i].row_end == (if i == n - 1 {
                self.res_height as int
            } else {
                self.band_start(n, i + 1)
            }),
            0 <= self.bands(n)[i].row_start <= self.bands(n)[i].row_end <= self.res_height,
    {
        self.lemma_band_bounds(n);
        assert(0 <= self.band_start(n, i) <= self.band_start(n, i + 1) <= self.res_height);
    }

    /// Row `y` of the screen lies in the band that `band_of_row` names.
    pub proof fn lemma_row_in_band(self, n: int, y: int)
        requires
            1 <= n,
            0 <= y < self.res_height,
        ensures
            0 <= self.band_of_row(n, y) < n,
            self.bands(n)[self.band_of_row(n, y)].holds_row(y),
    {
        self.lemma_band_of_row(n, y);
        self.lemma_band(n, self.band_of_row(n, y));
    }

    /// Row `y` of the screen lies between the start of the band that
    /// `band_of_row` names and the start of the next.
    proof fn lemma_band_of_row(self, n: int, y: int)
        requires
            1 <= n,
            0 <= y < self.res_height,
        ensures
            0 <= self.band_of_row(n, y) < n,
            self.band_start(n, self.band_of_row(n, y)) <= y,
            self.band_of_row(n, y) < n - 1 ==> y < self.band_start(n, self.band_of_row(n, y) + 1),
    {
        let step = self.band_step(n);
        self.lemma_band_bounds(n);
        assert(self.band_start(n, n - 1) <= self.band_start(n, n));
        if step > 0 {
            let i = y / step;
            vstd::arithmetic::div_mod::lemma_fundamental_div_mod(y, step);
            vstd::arithmetic::div_mod::lemma_mod_bound(y, step);
            vstd::arithmetic::div_mod::lemma_div_pos_is_pos(y, step);
            assert(i * step <= y < (i + 1) * step) by (nonlinear_arith)
                requires
                    y == step * i + y % step,
                    0 <= y % step < step,
            ;
            if i >= n - 1 {
                assert((n - 1) * step <= i * step) by (nonlinear_arith)
                    requires
                        n - 1 <= i,
                        step > 0,
                ;
            }
        } else {
            assert((n - 1) * step == 0) by (nonlinear_arith)
                requires
                    step == 0,
            ;
        }
    }

    /// The first `k` bands of a cut hold the rows above the start of band `k`.
    proof fn lemma_prefix_rows(self, n: int, k: int)
        requires
            1 <= n,
            0 <= k <= n,
        ensures
            total_rows(self.bands(n).take(k)) == (if k == n {
                self.res_height as int
            } else {
                k * self.band_step(n)
            }),
        decreases k,
    {
        let bands = self.bands(n);
        let step = self.band_step(n);
        self.lemma_band_bounds(n);
        if k > 0 {
            self.lemma_prefix_rows(n, k - 1);
            assert(bands.take(k).drop_last() =~= bands.take(k - 1));
            assert(bands.take(k).last() == bands[k - 1]);
            assert(0 <= self.band_start(n, k - 1) <= self.band_start(n, k) <= self.res_height);
        }
    }

    /// Cut into a single band, the screen stays whole: the band is numbered 0
    /// and spans every row, and its sub-camera has the parent's own grid.
    pub proof fn lemma_single_band(self)
        ensures
            self.bands(1) == seq![Band { index: 0, row_start: 0, row_end: self.res_height }],
            self.subdivided(self.bands(1)[0].row_start, self.bands(1)[0].row_end) == self,
    {
        self.lemma_band_bounds(1);
        assert(self.bands(1) =~= seq![Band { index: 0, row_start: 0, row_end: self.res_height }]);
    }
}

} // verus!
