//! Painting one band: colors arrive pixel by pixel, in scan order, and end up
//! in an RGB buffer of the band's resolution.

use vstd::prelude::*;
use crate::raster::{blank, rgb_new, rgb_pixels, rgb_put_pixel, rgb_size, RgbRaster};
use crate::screen::{Screen, ScreenIterator};

verus! {

/// The mathematical content of a [`BandPainter`]: the grid that is painted
/// and the colors received so far, in scan order.
pub struct PaintedBand {
    pub screen: Screen,
    pub colors: Seq<Seq<u8>>,
}

/// The pixels of a band of which the first `colors.len()` pixels of the scan
/// carry `colors`, one each, and the rest are still black.
pub open spec fn painted_pixels(screen: Screen, colors: Seq<Seq<u8>>) -> Map<(int, int), Seq<u8>> {
    Map::new(
        |at: (int, int)| 0 <= at.0 < screen.res_width && 0 <= at.1 < screen.res_height,
        |at: (int, int)|
            if at.1 * screen.res_width + at.0 < colors.len() {
                colors[at.1 * screen.res_width + at.0]
            } else {
                Seq::new(3, |c: int| 0u8)
            },
    )
}

/// The colors that `pixels` holds at the first `count` pixels of the scan.
spec fn colors_in(screen: Screen, pixels: Map<(int, int), Seq<u8>>, count: int) -> Seq<Seq<u8>> {
    Seq::new(
        count as nat,
        |k: int| pixels[(screen.pixel_at(k).0 as int, screen.pixel_at(k).1 as int)],
    )
}

/// A band that is being painted.
pub struct BandPainter {
    raster: RgbRaster,
    scan: ScreenIterator,
}

impl View for BandPainter {
    type V = PaintedBand;

    closed spec fn view(&self) -> PaintedBand {
        content(self.raster, self.scan)
    }
}

/// What a buffer and the scan over it amount to.
spec fn content(raster: RgbRaster, scan: ScreenIterator) -> PaintedBand {
    PaintedBand {
        screen: scan.screen(),
        colors: colors_in(scan.screen(), rgb_pixels(raster), scan.visited()),
    }
}

/// Whether a buffer has the resolution of the scan over it and is black
/// wherever the scan has not been yet.
spec fn coherent(raster: RgbRaster, scan: ScreenIterator) -> bool {
    &&& rgb_size(raster) == (scan.screen().res_width, scan.screen().res_height)
    &&& rgb_pixels(raster) == painted_pixels(
        content(raster, scan).screen,
        content(raster, scan).colors,
    )
}

impl BandPainter {
    #[verifier::type_invariant]
    spec fn well_formed(self) -> bool {
        coherent(self.raster, self.scan)
    }

    /// Starts a band of the given resolution, all black.
    pub fn new(screen: Screen) -> (painter: BandPainter)
        requires
            3 * screen.pixel_count() <= isize::MAX,
        ensures
            painter@.screen == screen,
            painter@.colors == Seq::<Seq<u8>>::empty(),
    {
        assert(3 * screen.res_width * screen.res_height == 3 * screen.pixel_count())
            by (nonlinear_arith);
        let raster = rgb_new(screen.res_width, screen.res_height);
        let scan = screen.into_iter();
        proof {
            assert(content(raster, scan).colors =~= Seq::<Seq<u8>>::empty());
            assert(blank(screen.res_width, screen.res_height, 3) =~= painted_pixels(
                screen,
                Seq::<Seq<u8>>::empty(),
            ));
        }
        BandPainter { raster, scan }
    }

    /// The pixel that the next color goes to, or `None` once the band is
    /// full.
    pub fn pixel(&self) -> (pixel: Option<(u32, u32)>)
        ensures
            pixel == (if self@.colors.len() < self@.screen.pixel_count() {
                Some(self@.screen.pixel_at(self@.colors.len() as int))
            } else {
                None
            }),
    {
        proof {
            self.scan.lemma_remaining();
        }
        self.scan.peek()
    }

    /// Paints the next pixel of the scan with `color`. On a full band nothing
    /// changes.
    pub fn paint(self, color: [u8; 3]) -> (painter: BandPainter)
        ensures
            painter@.screen == self@.screen,
            painter@.colors == (if self@.colors.len() < self@.screen.pixel_count() {
                self@.colors.push(color@)
            } else {
                self@.colors
            }),
    {
        proof {
            use_type_invariant(&self);
            self.scan.lemma_remaining();
        }
        let ghost screen = self@.screen;
        let ghost before = self@.colors;
        let ghost pixels = rgb_pixels(self.raster);
        let mut raster = self.raster;
        let mut scan = self.scan;
        match scan.next() {
            Some((x, y)) => {
                let ghost k = before.len() as int;
                proof {
                    scan.lemma_remaining();
                    screen.lemma_pixel_at(k);
                }
                rgb_put_pixel(&mut raster, x, y, color);
                proof {
                    let after = content(raster, scan).colors;
                    assert forall|i: int| 0 <= i < k implies screen.pixel_at(i) != (x, y) by {
                        screen.lemma_pixel_at(i);
                    }
                    assert(after =~= before.push(color@));
                    assert forall|at: (int, int)|
                        0 <= at.0 < screen.res_width && 0 <= at.1
                            < screen.res_height implies #[trigger] rgb_pixels(raster)[at]
                        == painted_pixels(screen, after)[at] by {
                        screen.lemma_scan_index(at.0 as u32, at.1 as u32);
                    }
                    assert(rgb_pixels(raster) =~= painted_pixels(screen, after));
                }
                BandPainter { raster, scan }
            },
            None => BandPainter { raster, scan },
        }
    }

    /// Hands over the buffer: it has the band's resolution, the pixels
    /// painted so far carry their colors, and the others are black.
    pub fn finish(self) -> (raster: RgbRaster)
        ensures
            rgb_size(raster) == (self@.screen.res_width, self@.screen.res_height),
            rgb_pixels(raster) == painted_pixels(self@.screen, self@.colors),
    {
        proof {
            use_type_invariant(&self);
        }
        self.raster
    }
}

} // verus!
