use black_hole_vis::raster::RgbaRaster;
use black_hole_vis::stitch::{stitch, stitch_order};
use image::{Rgba, RgbaImage};

fn names(list: &[&str]) -> Vec<String> {
    list.iter().map(|name| name.to_string()).collect()
}

fn flat(width: u32, height: u32, color: [u8; 4]) -> RgbaRaster {
    RgbaRaster { image: RgbaImage::from_pixel(width, height, Rgba(color)) }
}

const CLEAR: [u8; 4] = [0, 0, 0, 0];
const RED: [u8; 4] = [255, 0, 0, 255];
const GREEN: [u8; 4] = [0, 255, 0, 255];
const BLUE: [u8; 4] = [0, 0, 255, 255];

fn row_colors(picture: &RgbaImage, x: u32) -> Vec<[u8; 4]> {
    (0..picture.height()).map(|y| picture.get_pixel(x, y).0).collect()
}

#[test]
fn stitch_2_comes_before_stitch_10() {
    let order = stitch_order(&names(&["stitch_10", "stitch_2"]));
    assert_eq!(order, vec![1, 0]);
    let order = stitch_order(&names(&["stitch_2", "stitch_10"]));
    assert_eq!(order, vec![0, 1]);
}

#[test]
fn order_is_numeric_over_many_bands() {
    let listed = names(&[
        "stitch_0", "stitch_1", "stitch_10", "stitch_11", "stitch_2", "stitch_3", "stitch_4",
        "stitch_5", "stitch_6", "stitch_7", "stitch_8", "stitch_9",
    ]);
    let order = stitch_order(&listed);
    let sorted: Vec<&str> = order.iter().map(|&at| listed[at].as_str()).collect();
    assert_eq!(
        sorted,
        vec![
            "stitch_0", "stitch_1", "stitch_2", "stitch_3", "stitch_4", "stitch_5", "stitch_6",
            "stitch_7", "stitch_8", "stitch_9", "stitch_10", "stitch_11",
        ]
    );
}

#[test]
fn order_of_reversed_bands() {
    let order = stitch_order(&names(&["stitch_3", "stitch_2", "stitch_1", "stitch_0"]));
    assert_eq!(order, vec![3, 2, 1, 0]);
}

#[test]
fn order_keeps_listing_order_among_equal_numbers() {
    let order = stitch_order(&names(&["b_1", "a_1", "c_0", "stitch_01", "d_0"]));
    assert_eq!(order, vec![2, 4, 0, 1, 3]);
}

#[test]
fn names_without_a_number_go_last() {
    let order = stitch_order(&names(&["notes", "stitch_1", "", "stitch_0", "stitch_99999999999"]));
    assert_eq!(order, vec![3, 1, 0, 2, 4]);
}

#[test]
fn order_of_nothing_and_of_one() {
    assert_eq!(stitch_order(&names(&[])), Vec::<usize>::new());
    assert_eq!(stitch_order(&names(&["stitch_5"])), vec![0]);
}

#[test]
fn order_lists_every_artifact_once() {
    let listed = names(&["s9", "s3", "s3", "x", "s0", "s12", "s1", "s3"]);
    let mut order = stitch_order(&listed);
    assert_eq!(order, vec![4, 6, 1, 2, 7, 0, 5, 3]);
    order.sort();
    assert_eq!(order, vec![0, 1, 2, 3, 4, 5, 6, 7]);
}

#[test]
fn bands_are_stacked_top_down() {
    let bands = vec![flat(3, 1, RED), flat(3, 2, GREEN), flat(3, 1, BLUE)];
    let picture = stitch(3, 4, &bands).image;
    assert_eq!(picture.dimensions(), (3, 4));
    for x in 0..3 {
        assert_eq!(row_colors(&picture, x), vec![RED, GREEN, GREEN, BLUE]);
    }
}

#[test]
fn band_pixels_keep_their_place() {
    let mut top = RgbaImage::new(2, 2);
    top.put_pixel(0, 0, Rgba([1, 2, 3, 4]));
    top.put_pixel(1, 0, Rgba([5, 6, 7, 8]));
    top.put_pixel(0, 1, Rgba([9, 10, 11, 12]));
    top.put_pixel(1, 1, Rgba([13, 14, 15, 16]));
    let mut bottom = RgbaImage::new(2, 1);
    bottom.put_pixel(0, 0, Rgba([17, 18, 19, 20]));
    bottom.put_pixel(1, 0, Rgba([21, 22, 23, 24]));
    let bands = vec![RgbaRaster { image: top }, RgbaRaster { image: bottom }];
    let picture = stitch(2, 3, &bands).image;
    assert_eq!(
        picture.into_raw(),
        vec![
            1, 2, 3, 4, 5, 6, 7, 8, 9, 10, 11, 12, 13, 14, 15, 16, 17, 18, 19, 20, 21, 22, 23, 24
        ]
    );
}

#[test]
fn picture_without_bands_is_transparent_black() {
    let picture = stitch(2, 2, &Vec::new()).image;
    assert_eq!(picture.dimensions(), (2, 2));
    assert_eq!(picture.into_raw(), vec![0; 16]);
}

#[test]
fn picture_below_the_bands_stays_transparent_black() {
    let picture = stitch(1, 3, &vec![flat(1, 1, RED)]).image;
    assert_eq!(row_colors(&picture, 0), vec![RED, CLEAR, CLEAR]);
}

#[test]
fn narrow_band_leaves_the_rest_of_its_rows_untouched() {
    let picture = stitch(3, 2, &vec![flat(2, 1, RED), flat(3, 1, GREEN)]).image;
    assert_eq!(picture.get_pixel(0, 0).0, RED);
    assert_eq!(picture.get_pixel(1, 0).0, RED);
    assert_eq!(picture.get_pixel(2, 0).0, CLEAR);
    assert_eq!(picture.get_pixel(2, 1).0, GREEN);
}

#[test]
fn band_too_wide_is_left_out_but_takes_its_rows() {
    let picture = stitch(2, 3, &vec![flat(2, 1, RED), flat(3, 1, GREEN), flat(2, 1, BLUE)]).image;
    assert_eq!(row_colors(&picture, 0), vec![RED, CLEAR, BLUE]);
    assert_eq!(row_colors(&picture, 1), vec![RED, CLEAR, BLUE]);
}

#[test]
fn band_reaching_below_the_picture_is_left_out() {
    let picture = stitch(1, 3, &vec![flat(1, 2, RED), flat(1, 2, GREEN), flat(1, 1, BLUE)]).image;
    assert_eq!(row_colors(&picture, 0), vec![RED, RED, CLEAR]);
}

#[test]
fn empty_bands_take_no_rows() {
    let bands = vec![flat(2, 0, RED), flat(2, 1, GREEN), flat(0, 0, RED), flat(2, 1, BLUE)];
    let picture = stitch(2, 2, &bands).image;
    assert_eq!(row_colors(&picture, 0), vec![GREEN, BLUE]);
}

#[test]
fn picture_of_no_pixels() {
    assert_eq!(stitch(0, 0, &vec![flat(1, 1, RED)]).image.dimensions(), (0, 0));
    assert_eq!(stitch(0, 5, &Vec::new()).image.dimensions(), (0, 5));
}

#[test]
fn stitched_in_artifact_order_band_2_lies_above_band_10() {
    let listed = names(&["stitch_10", "stitch_2"]);
    let decoded = [flat(1, 1, BLUE), flat(1, 1, RED)];
    let bands: Vec<RgbaRaster> = stitch_order(&listed)
        .into_iter()
        .map(|at| RgbaRaster { image: decoded[at].image.clone() })
        .collect();
    let picture = stitch(1, 2, &bands).image;
    assert_eq!(row_colors(&picture, 0), vec![RED, BLUE]);
}
