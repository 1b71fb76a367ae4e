use koboterm::panel::{FakePanel, Geometry, Waveform};
use koboterm::ui::home::{AddForm, Field, FormAction, FormError, Home, HomeAction, HostEntry, TextSize};

#[test]
fn home_draws_entries_and_hit_tests_them() {
    let mut fp = FakePanel::new(67, 45);
    let mut h = Home::new(67, 45);
    let hosts = vec![HostEntry { name: "MacBook".into(), spec: "tunc@10.0.0.2".into(), command: None }];
    h.draw(&mut fp, &hosts, "ssh-ed25519 AAAAtest koboterm", "http://10.0.0.9:8080", "", TextSize::Medium);
    assert!((0..45).any(|r| fp.row_text(r).contains("curl -fsSL http://10.0.0.9:8080/install.sh | sh")));
    assert!(fp.row_text(6).contains("MacBook"));
    assert!(fp.row_text(6).contains("tunc@10.0.0.2"));
    assert_eq!(h.hit(10, 6), HomeAction::Connect(0));
    assert_eq!(h.hit(10, 9), HomeAction::Add);
    assert_eq!(h.hit(62, 42), HomeAction::Quit);
    assert_eq!(h.hit(53, 1), HomeAction::Size(TextSize::Small));
    assert_eq!(h.hit(63, 1), HomeAction::Size(TextSize::Large));
    assert_eq!(h.hit(30, 30), HomeAction::Nothing);
    // Small grid (large text) still lays out without panicking.
    let mut fp2 = FakePanel::new(43, 29);
    let mut h2 = Home::new(43, 29);
    h2.draw(&mut fp2, &hosts, "ssh-ed25519 AAAAtest koboterm", "http://10.0.0.9:8080", "", TextSize::Large);
    assert!(fp2.row_text(6).contains("MacBook"));
    assert_eq!(fp.count(Waveform::Full), 1);
}

#[test]
fn form_typing_and_validation() {
    let mut f = AddForm::new(67);
    assert_eq!(f.input(b"MacBook\r"), FormAction::Nothing);
    assert_eq!(f.focus, Field::Spec);
    f.input(b"tunc@10.0.0.2\x7f2");
    assert_eq!(f.spec, "tunc@10.0.0.2");
    assert_eq!(f.input(b"\r"), FormAction::Nothing);
    assert_eq!(f.focus, Field::Command);
    assert_eq!(f.input(b"\r"), FormAction::Save);
    let e = f.entry().unwrap();
    assert_eq!(e.name, "MacBook");
    assert_eq!(e.command, None);
    let mut bad = AddForm::new(67);
    bad.input(b"x");
    assert!(bad.entry().is_err());
    let mut fp = FakePanel::new(67, 45);
    f.draw(&mut fp, 29);
    assert!(fp.row_text(1).contains("Add a machine"));
    assert_eq!(f.hit(3, 19), FormAction::Save);
}

#[test]
fn form_errors_name_each_missing_part() {
    let mut f = AddForm::new(67);
    assert_eq!(f.entry(), Err(FormError::NameRequired));
    f.input(b"  box  \rnohost");
    assert_eq!(f.entry(), Err(FormError::AddressWithoutUser));
    assert_eq!(FormError::AddressWithoutUser.message(), "address must be user@host");
    assert_eq!(FormError::NameRequired.message(), "name is required");
    f.input(b"@h\r  tmux  ");
    let e = f.entry().unwrap();
    assert_eq!(e.name, "box");
    assert_eq!(e.spec, "nohost@h");
    assert_eq!(e.command, Some("tmux".to_string()));
}

#[test]
fn escape_cancels_the_form() {
    let mut f = AddForm::new(67);
    assert_eq!(f.input(b"ab\x1bcd"), FormAction::Cancel);
    assert_eq!(f.name, "ab");
    assert_eq!(f.hit(16, 19), FormAction::Cancel);
    assert_eq!(f.hit(5, 9), FormAction::Focus(Field::Spec));
}

#[test]
fn text_size_names_round_trip() {
    for s in [TextSize::Small, TextSize::Medium, TextSize::Large] {
        assert_eq!(TextSize::parse(s.name()), s);
    }
    assert_eq!(TextSize::parse("huge"), TextSize::Medium);
}

#[test]
fn home_layout_check_matches_what_draw_needs() {
    let hosts = vec![HostEntry { name: "MacBook".into(), spec: "tunc@10.0.0.2".into(), command: None }];
    let h = Home::new(67, 45);
    let g = Geometry { cols: 67, rows: 45 };
    assert!(h.can_draw(g, &hosts, "ssh-ed25519 AAAAtest koboterm", "http://10.0.0.9:8080"));
    assert!(!Home::new(15, 45).can_draw(g, &hosts, "k", "u"), "too narrow");
    assert!(!Home::new(67, 46).can_draw(g, &hosts, "k", "u"), "taller than the panel");
    let long = vec![HostEntry { name: "x".into(), spec: "a".repeat(65), command: None }];
    assert!(!h.can_draw(g, &long, "k", "u"), "an address wider than the screen");
}
