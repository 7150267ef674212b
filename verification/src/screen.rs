//! The pixel grid of a camera and the order in which its pixels are visited.

use vstd::prelude::*;

verus! {

/// The pixel grid of a rendered image: `res_width` columns by `res_height` rows.
#[derive(Clone, Copy, Debug, PartialEq, Eq, Structural)]
pub struct Screen {
    pub res_width: u32,
    pub res_height: u32,
}

impl Screen {
    /// Number of pixels on the grid.
    pub open spec fn pixel_count(self) -> nat {
        (self.res_width as nat) * (self.res_height as nat)
    }

    /// Whether `(x, y)` names a pixel of the grid.
    pub open spec fn contains(self, x: u32, y: u32) -> bool {
        x < self.res_width && y < self.res_height
    }

    /// The pixel visited at position `k` of the scan: rows from the top down,
    /// within a row from left to right.
    pub open spec fn pixel_at(self, k: int) -> (u32, u32) {
        ((k % (self.res_width as int)) as u32, (k / (self.res_width as int)) as u32)
    }

    /// Position of the pixel `(x, y)` in the scan.
    pub open spec fn scan_index(self, x: u32, y: u32) -> int {
        y * self.res_width + x
    }

    /// All pixels of the grid in scan order.
    pub open spec fn scan(self) -> Seq<(u32, u32)> {
        Seq::new(self.pixel_count(), |k: int| self.pixel_at(k))
    }

    /// Starts a scan of the grid at its first pixel.
    pub fn into_iter(self) -> (it: ScreenIterator)
        ensures
            it.screen() == self,
            it@ == self.scan(),
    {
        let it = ScreenIterator { width: self.res_width, height: self.res_height, x: 0, y: 0 };
        assert(0 * self.res_width + 0 == 0);
        assert(it@ =~= self.scan());
        it
    }

    /// Every position of the scan names a pixel of the grid, and
    /// `scan_index` leads back to that position.
    pub proof fn lemma_pixel_at(self, k: int)
        requires
            0 <= k < self.pixel_count(),
        ensures
            self.contains(self.pixel_at(k).0, self.pixel_at(k).1),
            self.scan_index(self.pixel_at(k).0, self.pixel_at(k).1) == k,
    {
        let w = self.res_width as int;
        let h = self.res_height as int;
        assert(w > 0) by (nonlinear_arith)
            requires
                0 <= k < w * h,
                w >= 0,
        ;
        vstd::arithmetic::div_mod::lemma_fundamental_div_mod(k, w);
        vstd::arithmetic::div_mod::lemma_mod_bound(k, w);
        vstd::arithmetic::div_mod::lemma_div_pos_is_pos(k, w);
        assert(k / w < h) by (nonlinear_arith)
            requires
                0 <= k < w * h,
                w > 0,
                k == w * (k / w) + k % w,
                0 <= k % w,
        ;
        assert(w * (k / w) == (k / w) * w) by (nonlinear_arith);
    }

    /// Every pixel of the grid is visited, at the position `scan_index` gives.
    pub proof fn lemma_scan_index(self, x: u32, y: u32)
        requires
            self.contains(x, y),
        ensures
            0 <= self.scan_index(x, y) < self.pixel_count(),
            self.pixel_at(self.scan_index(x, y)) == (x, y),
            self.scan()[self.scan_index(x, y)] == (x, y),
    {
        let w = self.res_width as int;
        let h = self.res_height as int;
        let k = y * w + x;
        assert(0 <= k < w * h) by (nonlinear_arith)
            requires
                0 <= x < w,
                0 <= y < h,
                k == y * w + x,
        ;
        vstd::arithmetic::div_mod::lemma_fundamental_div_mod_converse(k, w, y as int, x as int);
    }
}

/// A scan in progress over the pixels of a [`Screen`].
///
/// Its view is the sequence of pixels still to be handed out.
#[derive(Clone, Copy, Debug)]
pub struct ScreenIterator {
    width: u32,
    height: u32,
    x: u32,
    y: u32,
}

impl View for ScreenIterator {
    type V = Seq<(u32, u32)>;

    closed spec fn view(&self) -> Seq<(u32, u32)> {
        self.screen().scan().skip(self.done())
    }
}

impl ScreenIterator {
    #[verifier::type_invariant]
    spec fn well_formed(self) -> bool {
        &&& self.y <= self.height
        &&& self.width > 0 ==> self.x < self.width
        &&& self.width == 0 ==> self.x == 0
        &&& self.y == self.height ==> self.x == 0
    }

    /// The grid that is being scanned.
    pub closed spec fn screen(&self) -> Screen {
        Screen { res_width: self.width, res_height: self.height }
    }

    spec fn done(&self) -> int {
        let done = self.y * self.width + self.x;
        if done <= self.screen().pixel_count() {
            done
        } else {
            self.screen().pixel_count() as int
        }
    }

    /// Number of pixels handed out so far.
    pub open spec fn visited(&self) -> int {
        self.screen().pixel_count() - self@.len()
    }

    /// The pixels still to come are the scan of the grid without those that
    /// were handed out.
    pub proof fn lemma_remaining(&self)
        ensures
            0 <= self.visited() <= self.screen().pixel_count(),
            self@ == self.screen().scan().skip(self.visited()),
    {
    }

    /// The pixel that `next` would hand out, without moving on.
    pub fn peek(&self) -> (pixel: Option<(u32, u32)>)
        ensures
            pixel == (if self@.len() > 0 {
                Some(self@[0])
            } else {
                None
            }),
    {
        let mut ahead = *self;
        ahead.next()
    }

    /// Hands out the next pixel of the scan, or `None` once every pixel has
    /// been handed out; from then on it keeps answering `None`.
    pub fn next(&mut self) -> (pixel: Option<(u32, u32)>)
        ensures
            final(self).screen() == old(self).screen(),
            old(self)@.len() == 0 ==> pixel.is_none() && final(self)@ == old(self)@,
            old(self)@.len() > 0 ==> pixel == Some(old(self)@[0]) && final(self)@ == old(
                self,
            )@.drop_first(),
    {
        proof {
            use_type_invariant(&*self);
        }
        let ghost w = self.width as int;
        let ghost h = self.height as int;
        let ghost done = self.y * self.width + self.x;
        if self.width == 0 || self.y >= self.height {
            assert(w * h - done <= 0) by (nonlinear_arith)
                requires
                    w == 0 || (done == h * w && w >= 0 && h >= 0),
                    done >= 0,
            ;
            assert(self@.len() == 0);
            return None;
        }
        assert(done + 1 <= w * h) by (nonlinear_arith)
            requires
                done == self.y * w + self.x,
                0 <= self.x < w,
                0 <= self.y < h,
        ;
        proof {
            self.screen().lemma_scan_index(self.x, self.y);
        }
        let pixel = (self.x, self.y);
        if self.x + 1 == self.width {
            self.x = 0;
            self.y = self.y + 1;
            assert(self.y * w + self.x == done + 1) by (nonlinear_arith)
                requires
                    self.x == 0,
                    done == (self.y - 1) * w + (w - 1),
            ;
        } else {
            self.x = self.x + 1;
        }
        assert(self@ =~= old(self)@.drop_first());
        Some(pixel)
    }
}

} // verus!
