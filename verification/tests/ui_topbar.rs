use koboterm::panel::FakePanel;
use koboterm::ui::topbar::{Status, TopAction, TopBar};

#[test]
fn draws_status_and_buttons_and_hit_tests() {
    for cols in [87u16, 65, 43] {
        let mut fp = FakePanel::new(cols, 20);
        let tb = TopBar::new(cols);
        let st = Status { clock: "12:36".into(), name: "MBP".into(), battery_pct: Some(21), charging: false, brightness_pct: Some(52) };
        tb.draw(&mut fp, &st);
        assert!(fp.row_text(0).starts_with(" 12:36  MBP"), "{cols}: {:?}", fp.row_text(0));
        assert!(fp.row_text(0).contains("▰▱▱▱ 21%"), "{cols}: {:?}", fp.row_text(0));
        assert!(fp.row_text(2).contains("Home"));
        assert_eq!(tb.hit(2, 2), TopAction::Home);
        assert_eq!(tb.hit(cols - 3, 2), TopAction::Keyboard);
        assert_eq!(tb.hit(cols - 10, 1), TopAction::TextSize);
        assert_eq!(tb.hit(20, 0), TopAction::Nothing);
    }
}

#[test]
fn status_shows_charging_and_unknown_battery() {
    let mut fp = FakePanel::new(87, 20);
    let tb = TopBar::new(87);
    let st = Status { clock: "09:05".into(), name: "vps".into(), battery_pct: Some(100), charging: true, brightness_pct: None };
    tb.update_status(&mut fp, &st);
    assert!(fp.row_text(0).starts_with(" 09:05  vps"), "{:?}", fp.row_text(0));
    assert!(fp.row_text(0).contains("▰▰▰▰ 100%"), "{:?}", fp.row_text(0));
    assert_eq!(fp.total_refreshes(), 1);
}
