use koboterm::px::{FakeCanvas, PxCanvas, PxRect, PxWave};

#[test]
fn blend_mixes_towards_the_colour() {
    let mut c = FakeCanvas::new(4, 4);
    c.blend(1, 1, 128, 0);
    assert!((120..=135).contains(&c.get(1, 1)));
    c.blend(2, 2, 0, 0);
    assert_eq!(c.get(2, 2), 255);
}

#[test]
fn fills_lines_and_outlines_paint_where_expected() {
    let mut c = FakeCanvas::new(200, 100);
    c.fill(PxRect::new(10, 10, 20, 5), 0);
    assert_eq!(c.dark_pixels(PxRect::new(0, 0, 200, 100)), 100);
    c.line(0, 90, 199, 90, 2, 0);
    assert!(c.dark_pixels(PxRect::new(0, 89, 200, 3)) >= 400);
    c.rect_outline(PxRect::new(150, 10, 40, 30), 2, 0);
    assert_eq!(c.get(170, 25), 255, "outline leaves the interior alone");
    assert_eq!(c.get(150, 10), 0);
    assert_eq!(c.get(189, 39), 0);
    assert_eq!(c.get(187, 37), 255);
}

#[test]
fn fill_is_clipped_to_the_canvas() {
    let mut c = FakeCanvas::new(10, 10);
    c.fill(PxRect::new(-5, -5, 8, 8), 0);
    assert_eq!(c.dark_pixels(PxRect::new(0, 0, 10, 10)), 9);
    c.fill(PxRect::new(20, 20, 5, 5), 0);
    assert_eq!(c.dark_pixels(PxRect::new(0, 0, 10, 10)), 9);
}

#[test]
fn diagonal_line_walks_bresenham_points() {
    let mut c = FakeCanvas::new(5, 3);
    c.line(0, 0, 3, 1, 1, 0);
    let dark: Vec<(i32, i32)> = (0..3).flat_map(|y| (0..5).map(move |x| (x, y))).filter(|&(x, y)| c.get(x, y) == 0).collect();
    assert_eq!(dark, vec![(0, 0), (1, 0), (2, 1), (3, 1)]);
    let mut c = FakeCanvas::new(5, 5);
    c.line(2, 4, 2, 0, 1, 0);
    assert_eq!(c.dark_pixels(PxRect::new(2, 0, 1, 5)), 5);
    assert_eq!(c.dark_pixels(PxRect::new(0, 0, 5, 5)), 5);
    let mut c = FakeCanvas::new(3, 3);
    c.line(1, 1, 1, 1, 1, 0);
    assert_eq!(c.dark_pixels(PxRect::new(0, 0, 3, 3)), 1);
}

#[test]
fn horizontal_and_vertical_lines() {
    let mut c = FakeCanvas::new(10, 10);
    c.hline(7, 2, 4, 0, 0);
    assert_eq!(c.dark_pixels(PxRect::new(0, 0, 10, 10)), 6);
    assert_eq!(c.dark_pixels(PxRect::new(2, 4, 6, 1)), 6);
    c.vline(0, 0, 9, 2, 0);
    assert_eq!(c.dark_pixels(PxRect::new(0, 0, 2, 10)), 20);
}

#[test]
fn refreshes_are_logged_and_blend_mixes_exactly() {
    let mut c = FakeCanvas::new(2, 2);
    c.refresh_px(PxRect::new(0, 0, 2, 2), PxWave::Fast);
    assert_eq!(c.refreshes, vec![(PxRect::new(0, 0, 2, 2), PxWave::Fast)]);
    c.put(0, 0, 100);
    c.blend(0, 0, 51, 200);
    // 100 + (100 * 51) / 255 = 120
    assert_eq!(c.get(0, 0), 120);
    c.blend(1, 1, 255, 7);
    assert_eq!(c.get(1, 1), 7);
    c.blend(5, 5, 255, 7);
    assert_eq!(c.size(), (2, 2));
}
