use koboterm::input::{TouchEvent, TouchMap, TouchParser};

fn ev(ty: u16, code: u16, val: i32) -> [u8; 16] {
    let mut b = [0u8; 16];
    b[8..10].copy_from_slice(&ty.to_le_bytes());
    b[10..12].copy_from_slice(&code.to_le_bytes());
    b[12..16].copy_from_slice(&val.to_le_bytes());
    b
}

/// Clara BW: swapped axes, mirrored x. Raw (106, 988) was a top-left tap.
fn clara() -> TouchMap {
    TouchMap { swap_axes: true, mirror_x: true, mirror_y: false, width: 1072, height: 1448 }
}

#[test]
fn clara_mapping_matches_recorded_taps() {
    let m = clara();
    assert_eq!(m.to_screen(106, 988), (83, 106)); // top-left
    assert_eq!(m.to_screen(1158, 53), (1018, 1158)); // bottom-right
    assert_eq!(m.to_screen(708, 510), (561, 708)); // centre
}

#[test]
fn a_tap_yields_down_up_tap() {
    let mut p = TouchParser::new(clara());
    let mut out = Vec::new();
    for e in [ev(1, 0x14a, 1), ev(3, 0x39, 0), ev(3, 0x35, 708), ev(3, 0x36, 510), ev(0, 0, 0)] {
        out.extend(p.feed(&e));
    }
    assert_eq!(out, vec![TouchEvent::Down { x: 561, y: 708 }]);
    out.clear();
    for e in [ev(3, 0x35, 709), ev(3, 0x36, 511), ev(0, 0, 0)] {
        out.extend(p.feed(&e));
    }
    assert_eq!(out, vec![TouchEvent::Move { x: 560, y: 709 }]);
    out.clear();
    for e in [ev(1, 0x14a, 0), ev(3, 0x39, -1), ev(0, 0, 0)] {
        out.extend(p.feed(&e));
    }
    assert_eq!(out, vec![TouchEvent::Up { x: 560, y: 709 }, TouchEvent::Tap { x: 560, y: 709 }]);
}

#[test]
fn a_swipe_is_not_a_tap() {
    let mut p = TouchParser::new(clara());
    let mut out = Vec::new();
    for e in [ev(1, 0x14a, 1), ev(3, 0x35, 100), ev(3, 0x36, 100), ev(0, 0, 0), ev(3, 0x35, 600), ev(0, 0, 0), ev(1, 0x14a, 0), ev(0, 0, 0)] {
        out.extend(p.feed(&e));
    }
    assert!(out.iter().any(|e| matches!(e, TouchEvent::Move { .. })));
    assert!(!out.iter().any(|e| matches!(e, TouchEvent::Tap { .. })), "{out:?}");
}

#[test]
fn points_off_the_screen_are_clamped() {
    let m = TouchMap { swap_axes: false, mirror_x: false, mirror_y: true, width: 100, height: 50 };
    assert_eq!(m.to_screen(-5, 0), (0, 49));
    assert_eq!(m.to_screen(500, 60), (99, 0));
    assert_eq!(m.to_screen(i32::MIN, i32::MAX), (0, 0));
}

#[test]
fn short_packets_and_unknown_codes_are_ignored() {
    let mut p = TouchParser::new(clara());
    assert!(p.feed(&[0u8; 8]).is_empty());
    assert!(p.feed(&ev(2, 0, 5)).is_empty());
    assert!(p.feed(&ev(0, 0, 0)).is_empty(), "no finger, no events");
}

#[test]
fn a_release_without_movement_reports_the_last_point() {
    let mut p = TouchParser::new(TouchMap { swap_axes: false, mirror_x: false, mirror_y: false, width: 100, height: 100 });
    let mut out = Vec::new();
    for e in [ev(1, 0x14a, 1), ev(3, 0x35, 10), ev(3, 0x36, 20), ev(0, 0, 0), ev(1, 0x14a, 0), ev(0, 0, 0)] {
        out.extend(p.feed(&e));
    }
    assert_eq!(out, vec![TouchEvent::Down { x: 10, y: 20 }, TouchEvent::Up { x: 10, y: 20 }, TouchEvent::Tap { x: 10, y: 20 }]);
}

#[test]
fn a_swipe_that_ends_near_its_start_is_judged_from_the_down() {
    let mut p = TouchParser::new(clara());
    let mut out = Vec::new();
    // Down, a move 300 px away, a move back beside the start, then up: the
    // finger ends within the slop of where it landed, so it is a tap.
    let packets: [&[[u8; 16]]; 4] = [
        &[ev(1, 0x14a, 1), ev(3, 0x35, 708), ev(3, 0x36, 510), ev(0, 0, 0)],
        &[ev(3, 0x36, 810), ev(0, 0, 0)],
        &[ev(3, 0x36, 515), ev(0, 0, 0)],
        &[ev(1, 0x14a, 0), ev(0, 0, 0)],
    ];
    for pk in packets {
        for e in pk {
            out.extend(p.feed(e));
        }
    }
    assert_eq!(out.first(), Some(&TouchEvent::Down { x: 561, y: 708 }));
    assert!(out.contains(&TouchEvent::Tap { x: 556, y: 708 }));
    // A touch that ends 300 px from where it landed gives no tap.
    out.clear();
    for pk in [&[ev(1, 0x14a, 1), ev(3, 0x36, 510), ev(0, 0, 0)][..], &[ev(3, 0x36, 810), ev(0, 0, 0)], &[ev(1, 0x14a, 0), ev(0, 0, 0)]] {
        for e in pk {
            out.extend(p.feed(e));
        }
    }
    assert!(out.iter().all(|e| !matches!(e, TouchEvent::Tap { .. })));
}
