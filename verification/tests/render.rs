use black_hole_vis::artifact::{artifact_stem, band_key};
use black_hole_vis::paint::BandPainter;
use black_hole_vis::raster::RgbaRaster;
use black_hole_vis::screen::Screen;
use black_hole_vis::stitch::{stitch, stitch_order};
use black_hole_vis::trace::{TraceAction, TraceOutcome, Tracer};
use image::{DynamicImage, RgbImage};

const RES: u32 = 40;
const SCREEN_WIDTH: f32 = 10.0;
const RADIUS: f32 = 2.0;
const COLOR: [u8; 3] = [200, 100, 50];
const MAX_STEPS: u32 = 350;
const STEP_SIZE: f32 = 0.05;

/// Color of the pixel in column `x_px` and row `y_px` of a `RES` by `RES`
/// picture: a camera at distance 8 looks straight at a sphere around the
/// origin, nothing bends the light, and rows are counted from `row_start`.
fn shade(x_px: u32, y_px: u32, row_start: u32) -> [u8; 3] {
    let scale = SCREEN_WIDTH / RES as f32;
    let across = scale * (x_px as f32 - (RES / 2) as f32);
    let up = scale * ((row_start + y_px) as f32 - (RES / 2) as f32);
    let mut depth = 8.0f32;
    let mut tracer = Tracer::new(MAX_STEPS, 1);
    loop {
        match tracer.action() {
            TraceAction::Step => {
                depth -= STEP_SIZE;
                tracer.stepped();
            }
            TraceAction::Probe(_) => {
                let inside = across * across + up * up + depth * depth <= RADIUS * RADIUS;
                tracer.probed(inside);
            }
            TraceAction::Finish(TraceOutcome::Hit { .. }) => return COLOR,
            TraceAction::Finish(TraceOutcome::Exhausted { .. }) => return [0, 0, 0],
        }
    }
}

fn render(screen: Screen, row_start: u32) -> RgbImage {
    let mut painter = BandPainter::new(screen);
    while let Some((x, y)) = painter.pixel() {
        painter = painter.paint(shade(x, y, row_start));
    }
    painter.finish().image
}

#[test]
fn flat_sphere_renders_as_a_disk_on_black() {
    let picture = render(Screen { res_width: RES, res_height: RES }, 0);
    let radius_px = RADIUS / SCREEN_WIDTH * RES as f32;
    let mut lit = 0;
    for (x, y, pixel) in picture.enumerate_pixels() {
        let dx = x as f32 - (RES / 2) as f32;
        let dy = y as f32 - (RES / 2) as f32;
        let distance = (dx * dx + dy * dy).sqrt();
        if distance < radius_px - 0.5 {
            assert_eq!(pixel.0, COLOR);
        }
        if distance > radius_px + 0.5 {
            assert_eq!(pixel.0, [0, 0, 0]);
        }
        if pixel.0 == COLOR {
            lit += 1;
        } else {
            assert_eq!(pixel.0, [0, 0, 0]);
        }
    }
    let area = std::f32::consts::PI * radius_px * radius_px;
    assert!((lit as f32 - area).abs() < 0.1 * area);
}

#[test]
fn one_band_renders_like_the_undivided_camera() {
    let screen = Screen { res_width: RES, res_height: RES };
    let whole = render(screen, 0);
    let bands = screen.split(1);
    let band = render(screen.subdivide(bands[0].row_start, bands[0].row_end), bands[0].row_start);
    assert_eq!(band, whole);
}

#[test]
fn bands_rendered_apart_stitch_into_the_undivided_picture() {
    let screen = Screen { res_width: RES, res_height: RES };
    let whole = DynamicImage::ImageRgb8(render(screen, 0)).to_rgba8();
    let mut artifacts = Vec::new();
    for band in screen.split(12).into_iter().rev() {
        let child = screen.subdivide(band.row_start, band.row_end);
        artifacts.push((artifact_stem(band.index), render(child, band.row_start)));
    }
    let stems: Vec<String> = artifacts.iter().map(|(stem, _)| stem.clone()).collect();
    let order = stitch_order(&stems);
    let keys: Vec<u32> = order.iter().map(|&at| band_key(&stems[at])).collect();
    assert_eq!(keys, vec![0, 1, 2, 3, 4, 5, 6, 7, 8, 9, 10, 11]);
    let decoded: Vec<RgbaRaster> = order
        .iter()
        .map(|&at| RgbaRaster { image: DynamicImage::ImageRgb8(artifacts[at].1.clone()).to_rgba8() })
        .collect();
    let picture = stitch(RES, RES, &decoded).image;
    assert_eq!(picture, whole);
}
