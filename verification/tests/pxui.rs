use koboterm::fmt::ValueFormat;
use koboterm::px::PxRect;
use koboterm::pxui::popup::{EndIcon, Popup, PopupHit, Row};
use koboterm::pxui::topbar::{BarAction, TopBar};

#[test]
fn brightness_popup_geometry_and_hits() {
    let mut p = Popup::new(1072, 40, 160, Some(700));
    p.title("Brightness").slider(0, 100, 52, 1, EndIcon::SunSmall, EndIcon::SunLarge, Some(ValueFormat::Pct)).divider().title("Natural light").slider(0, 10, 3, 1, EndIcon::Gear, EndIcon::Moon, None);
    p.finish();
    assert_eq!(p.slider_count(), 2);
    assert!(p.rect.h > 300 && p.rect.h < 600, "{}", p.rect.h);
    let s0 = p.slider_ref(0);
    let (x0, x1, y) = s0.track;
    assert_eq!(p.hit(x0, y), PopupHit::Slider(0, 0));
    assert_eq!(p.hit(x1, y), PopupHit::Slider(0, 100));
    let mid = p.slider_value_at(0, (x0 + x1) / 2);
    assert!((48..=52).contains(&mid), "{mid}");
    assert_eq!(p.slider_at((x0 + x1) / 2, y + 20), Some(0));
    assert_eq!(p.hit(10, 10), PopupHit::Close);
    let s1 = p.slider_ref(1);
    assert_eq!(p.hit(s1.track.0 - 40, s1.track.2), PopupHit::Slider(1, 2));
    assert_eq!(p.hit(s1.track.1 + 40, s1.track.2), PopupHit::Slider(1, 4));
}

#[test]
fn text_popup_choices_and_steps() {
    let mut p = Popup::new(1072, 40, 160, None);
    p.labeled_choice("Font Face:", &["Spleen", "Terminus"], 0).labeled_slider("Font Size:", 0, 4, 2, 1).labeled_slider("Margins:", 0, 48, 12, 4);
    p.finish();
    if let Row::LabeledChoice(_, ch) = &p.rows[0].0 {
        let r = ch.rects[1];
        assert_eq!(p.hit(r.x + 5, r.y + 5), PopupHit::Choice(0, 1));
    }
    let s = p.slider_ref(1);
    assert_eq!(p.hit(s.track.1 + 40, s.track.2), PopupHit::Slider(1, 16));
    p.set_slider_max(0, 6);
    assert_eq!(p.slider_ref(0).max, 6);
}

#[test]
fn popup_layout_is_exact_at_reference_width() {
    let mut p = Popup::new(1072, 40, 160, None);
    p.title("T").slider(0, 100, 52, 1, EndIcon::NoIcon, EndIcon::NoIcon, Some(ValueFormat::Pct));
    p.finish();
    assert_eq!(p.rect, PxRect::new(40, 160, 992, 250));
    assert_eq!(p.slider_ref(0).track, (150, 922, 330));
    assert_eq!(p.slider_ref(0).knob_x(), 150 + 772 * 52 / 100);
    p.set_slider(0, 500);
    assert_eq!(p.slider_value(0), 100);
    p.set_slider(0, -5);
    assert_eq!(p.slider_value(0), 0);
}

#[test]
fn popup_scales_with_width() {
    // 536 + 80 px is just over half the reference width: lengths scale down.
    let mut p = Popup::new(616, 40, 0, None);
    p.title("T");
    assert_eq!(p.rows[0].1.h, 70 * 616 / 1072);
    assert_eq!(p.slider_count(), 0);
}

#[test]
fn slider_steps_snap_to_the_step() {
    let mut p = Popup::new(1072, 40, 160, None);
    p.labeled_slider("Margins:", 0, 48, 12, 4);
    p.finish();
    let s = p.slider_ref(0);
    let (x0, x1, _) = s.track;
    // A touch a little right of 13/48 of the track snaps to 12 or 16.
    let v = s.value_at(x0 + (x1 - x0) * 13 / 48);
    assert!(v == 12 || v == 16, "{v}");
    assert_eq!(v % 4, 0);
    assert_eq!(s.value_at(x0 - 100), 0);
    assert_eq!(s.value_at(x1 + 100), 48);
}

#[test]
fn choices_can_be_reselected() {
    let mut p = Popup::new(1072, 40, 160, None);
    p.labeled_choice("Font Face:", &["Spleen", "Terminus"], 0);
    p.set_choice(0, 7);
    if let Row::LabeledChoice(l, ch) = &p.rows[0].0 {
        assert_eq!(l, "Font Face:");
        assert_eq!(ch.selected, 1);
        assert_eq!(ch.options, vec!["Spleen".to_string(), "Terminus".to_string()]);
    } else {
        panic!("not a choice row");
    }
}

#[test]
fn buttons_are_laid_out_right_to_left_and_hit_test() {
    let tb = TopBar::new(1072);
    assert_eq!(tb.height(), 150);
    assert_eq!(tb.hit(1072 - 60, 105), BarAction::More);
    assert_eq!(tb.hit(1072 - 60 - 72 * 4, 105), BarAction::Brightness);
    assert_eq!(tb.hit(80, 105), BarAction::Back);
    assert_eq!(tb.hit(500, 20), BarAction::Nothing);
}

#[test]
fn top_bar_geometry_at_reference_width() {
    let tb = TopBar::new(1072);
    assert_eq!(tb.area(), PxRect::new(0, 0, 1072, 150));
    assert_eq!(tb.status_rect(), PxRect::new(0, 0, 1072, 60));
    assert_eq!(tb.margin, 40);
    assert_eq!(tb.buttons[0], (BarAction::More, PxRect::new(960, 60, 72, 90)));
    assert_eq!(tb.buttons[5], (BarAction::Back, PxRect::new(0, 60, 672, 90)));
}

#[test]
fn slider_values_stay_in_range_on_steps_and_rise_with_x() {
    let mut p = Popup::new(1072, 40, 160, None);
    p.slider(0, 100, 50, 7, EndIcon::SunSmall, EndIcon::SunLarge, None);
    p.finish();
    let (x0, x1, _) = p.slider_ref(0).track;
    assert_eq!(p.slider_value_at(0, x0 - 50), 0);
    let mut prev = i32::MIN;
    for x in (x0 - 20)..(x1 + 20) {
        let v = p.slider_value_at(0, x);
        assert!((0..=100).contains(&v));
        assert!(v == 100 || v % 7 == 0, "{v}");
        assert!(v >= prev);
        prev = v;
    }
}
