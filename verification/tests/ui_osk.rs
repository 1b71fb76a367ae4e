use koboterm::panel::FakePanel;
use koboterm::ui::osk::{Key, Osk, OskAction};

#[test]
fn layout_fits_67_columns_and_15_rows() {
    let o = Osk::new(67, 30);
    for p in &o.keys {
        assert!(p.rect.col + p.rect.cols <= 67, "{p:?}");
        assert!(p.rect.row >= 30 && p.rect.row + p.rect.rows <= 45, "{p:?}");
    }
    assert_eq!(o.keys.len(), 13 * 4 + 10);
}

#[test]
fn draw_labels_land_in_the_grid() {
    let mut fp = FakePanel::new(67, 45);
    let o = Osk::new(67, 30);
    o.draw(&mut fp);
    let all: String = (30..45).map(|r| fp.row_text(r)).collect::<Vec<_>>().join("\n");
    for l in ["q", "Ent", "Bks", "space", "Sft", "Ctl", "Esc", "Hom"] {
        assert!(all.contains(l), "missing {l}\n{all}");
    }
    assert_eq!(fp.total_refreshes(), 1, "one refresh for the whole keyboard");
}

#[test]
fn tapping_q_then_shift_q_then_ctrl_c() {
    let mut o = Osk::new(67, 30);
    let q = o.keys.iter().position(|p| p.key == Key::Char('q', 'Q')).unwrap();
    let (qc, qr) = (o.keys[q].rect.col + 2, o.keys[q].rect.row + 1);
    assert_eq!(o.hit(qc, qr), Some(q));
    let a = o.press(q);
    assert_eq!(o.bytes_for(a), b"q");
    let sh = o.keys.iter().position(|p| p.key == Key::Shift).unwrap();
    assert_eq!(o.press(sh), OskAction::ModifierChanged);
    let a = o.press(q);
    assert_eq!(o.bytes_for(a), b"Q");
    assert!(!o.shift, "shift is one-shot");
    let ctl = o.keys.iter().position(|p| p.key == Key::Ctrl).unwrap();
    o.press(ctl);
    let cc = o.keys.iter().position(|p| p.key == Key::Char('c', 'C')).unwrap();
    let a = o.press(cc);
    assert_eq!(o.bytes_for(a), b"\x03");
}

#[test]
fn arrows_and_enter_send_sequences() {
    let mut o = Osk::new(67, 30);
    let up = o.keys.iter().position(|p| p.key == Key::Up).unwrap();
    let a = o.press(up);
    assert_eq!(o.bytes_for(a), b"\x1b[A");
    let ent = o.keys.iter().position(|p| p.key == Key::Enter).unwrap();
    let a = o.press(ent);
    assert_eq!(o.bytes_for(a), b"\r");
}

#[test]
fn alt_prefixes_escape_and_ctrl_maps_letters() {
    let mut o = Osk::new(67, 30);
    let alt = o.keys.iter().position(|p| p.key == Key::Alt).unwrap();
    assert_eq!(o.press(alt), OskAction::ModifierChanged);
    assert!(o.alt);
    let x = o.keys.iter().position(|p| p.key == Key::Char('x', 'X')).unwrap();
    let a = o.press(x);
    assert_eq!(o.bytes_for(a), b"\x1bx");
    assert!(!o.alt && !o.ctrl && !o.shift, "modifiers are cleared after a key");
    let ctl = o.keys.iter().position(|p| p.key == Key::Ctrl).unwrap();
    o.press(ctl);
    let a = o.press(ctl);
    assert_eq!(a, OskAction::ModifierChanged);
    assert!(!o.ctrl, "pressing a modifier twice turns it off");
}

#[test]
fn keys_outside_the_keyboard_are_not_hit() {
    let o = Osk::new(67, 30);
    assert_eq!(o.hit(0, 0), None);
    assert_eq!(o.hit(66, 29), None);
}

#[test]
fn hide_and_home_keys_report_their_actions() {
    let mut o = Osk::new(67, 30);
    let h = o.keys.iter().position(|p| p.key == Key::Hide).unwrap();
    assert_eq!(o.press(h), OskAction::Hide);
    let m = o.keys.iter().position(|p| p.key == Key::Home).unwrap();
    assert_eq!(o.press(m), OskAction::Home);
}

#[test]
fn every_key_is_hit_at_each_of_its_cells() {
    let o = Osk::new(67, 20);
    for (i, k) in o.keys.iter().enumerate() {
        for c in k.rect.col..k.rect.col + k.rect.cols {
            for r in k.rect.row..k.rect.row + k.rect.rows {
                assert_eq!(o.hit(c, r), Some(i));
            }
        }
    }
}
