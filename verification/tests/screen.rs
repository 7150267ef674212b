use black_hole_vis::screen::Screen;

fn scan(screen: Screen) -> Vec<(u32, u32)> {
    let mut it = screen.into_iter();
    let mut seen = Vec::new();
    while let Some(pixel) = it.next() {
        seen.push(pixel);
        assert!(seen.len() <= 1000, "the scan must end");
    }
    seen
}

#[test]
fn scan_visits_rows_top_down_and_pixels_left_to_right() {
    let seen = scan(Screen { res_width: 3, res_height: 2 });
    assert_eq!(seen, vec![(0, 0), (1, 0), (2, 0), (0, 1), (1, 1), (2, 1)]);
}

#[test]
fn scan_starts_at_the_top_left_pixel() {
    let mut it = Screen { res_width: 4, res_height: 4 }.into_iter();
    assert_eq!(it.next(), Some((0, 0)));
    assert_eq!(it.next(), Some((1, 0)));
}

#[test]
fn scan_visits_every_pixel_once() {
    let screen = Screen { res_width: 7, res_height: 5 };
    let seen = scan(screen);
    assert_eq!(seen.len(), 35);
    for y in 0..5 {
        for x in 0..7 {
            assert_eq!(seen[(y * 7 + x) as usize], (x, y));
        }
    }
}

#[test]
fn scan_stays_finished() {
    let mut it = Screen { res_width: 2, res_height: 1 }.into_iter();
    assert_eq!(it.next(), Some((0, 0)));
    assert_eq!(it.next(), Some((1, 0)));
    for _ in 0..5 {
        assert_eq!(it.next(), None);
    }
}

#[test]
fn scan_of_a_single_column() {
    let seen = scan(Screen { res_width: 1, res_height: 3 });
    assert_eq!(seen, vec![(0, 0), (0, 1), (0, 2)]);
}

#[test]
fn scan_of_an_empty_screen_is_empty() {
    assert_eq!(scan(Screen { res_width: 0, res_height: 3 }), vec![]);
    assert_eq!(scan(Screen { res_width: 3, res_height: 0 }), vec![]);
    assert_eq!(scan(Screen { res_width: 0, res_height: 0 }), vec![]);
}

#[test]
fn scan_can_be_restarted() {
    let screen = Screen { res_width: 2, res_height: 2 };
    assert_eq!(scan(screen), scan(screen));
}

#[test]
fn peek_shows_the_next_pixel_without_moving() {
    let mut it = Screen { res_width: 2, res_height: 1 }.into_iter();
    assert_eq!(it.peek(), Some((0, 0)));
    assert_eq!(it.peek(), Some((0, 0)));
    assert_eq!(it.next(), Some((0, 0)));
    assert_eq!(it.peek(), Some((1, 0)));
    assert_eq!(it.next(), Some((1, 0)));
    assert_eq!(it.peek(), None);
    assert_eq!(it.next(), None);
}

#[test]
fn scan_reaches_the_far_corner_of_a_large_screen() {
    let mut it = Screen { res_width: u32::MAX, res_height: 1 }.into_iter();
    assert_eq!(it.next(), Some((0, 0)));
    assert_eq!(it.next(), Some((1, 0)));
}
