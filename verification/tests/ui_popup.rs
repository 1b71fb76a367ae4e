use koboterm::fmt::{pct, plain, px, ValueFormat};
use koboterm::panel::FakePanel;
use koboterm::ui::popup::{Popup, PopupHit};

fn brightness() -> Popup {
    let mut p = Popup::new(65, 3, "Brightness");
    p.add_slider("Brightness", 0, 100, 52, 1, "☼", "☼", ValueFormat::Pct);
    p.add_slider("Natural light", 0, 10, 0, 1, "☼", "☾", ValueFormat::Plain);
    p.finish();
    p
}

#[test]
fn draws_title_sliders_and_values() {
    let mut fp = FakePanel::new(65, 44);
    let p = brightness();
    p.draw(&mut fp);
    assert!(fp.row_text(4).contains("Brightness"));
    let rows: Vec<String> = (3..3 + p.area.rows).map(|r| fp.row_text(r)).collect();
    assert!(rows.iter().any(|r| r.contains("52%")), "{rows:#?}");
    assert!(rows.iter().any(|r| r.contains("━") && r.contains("●") && r.contains("─")), "{rows:#?}");
    assert!(rows.iter().any(|r| r.contains("✕")));
    assert_eq!(fp.total_refreshes(), 1);
}

#[test]
fn taps_and_drags_change_values() {
    let p = brightness();
    let s = &p.sliders[0];
    assert_eq!(p.hit(s.minus.col, s.minus.row), PopupHit::Slider(0, 51));
    assert_eq!(p.hit(s.plus.col, s.plus.row), PopupHit::Slider(0, 53));
    assert_eq!(p.hit(s.track.col, s.track.row), PopupHit::Slider(0, 0));
    assert_eq!(p.hit(s.track.col + s.track.cols - 1, s.track.row), PopupHit::Slider(0, 100));
    assert_eq!(p.slider_at(s.track.col + 5, s.track.row), Some(0));
    let mid = p.slider_value_at(0, s.track.col + s.track.cols / 2);
    assert!((45..=55).contains(&mid), "{mid}");
    assert_eq!(p.hit(0, 0), PopupHit::Close);
    assert_eq!(p.hit(p.close.col + 1, p.close.row + 1), PopupHit::Close);
}

#[test]
fn choices_select() {
    let mut p = Popup::new(65, 3, "Text");
    p.add_choice("Font", &["Spleen", "Terminus"], 0);
    p.add_slider("Size", 0, 4, 2, 1, "A", "A", ValueFormat::Plain);
    p.finish();
    let r = p.choices[0].rects[1];
    assert_eq!(p.hit(r.col + 1, r.row), PopupHit::Choice(0, 1));
    let mut fp = FakePanel::new(65, 44);
    p.draw(&mut fp);
    assert!((3..20).any(|r| fp.row_text(r).contains("Terminus")));
}

#[test]
fn value_formats_render_exactly() {
    assert_eq!(pct(52), "52%");
    assert_eq!(plain(-7), "-7");
    assert_eq!(px(16), "16 px");
    assert_eq!(pct(0), "0%");
}

#[test]
fn slider_values_clamp_to_their_range() {
    let p = brightness();
    let s = &p.sliders[1];
    assert_eq!(p.hit(s.minus.col + 1, s.minus.row), PopupHit::Slider(1, 0));
    assert_eq!(p.slider_value_at(1, 0), 0);
    assert_eq!(p.slider_value_at(1, 1000), 10);
    assert_eq!(p.slider_value_at(0, s.track.col + s.track.cols + 20), 100);
}

#[test]
fn taps_on_the_panel_background_do_nothing() {
    let p = brightness();
    assert_eq!(p.hit(p.area.col + 1, p.area.row + 1), PopupHit::Nothing);
}
