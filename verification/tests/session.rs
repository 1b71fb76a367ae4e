use koboterm::nickel::{nickel_mode, Mode};
use koboterm::session::{
    added_text, closed_text, connecting_text, due_releases, ended_text, form_key, quick_failure, release_at,
    retry_with_shell, screen_settled, session_key, session_tap, swipe, unescape_str, Layout, RunArgs, SessionKey, TapTarget,
};
use koboterm::ui::home::{FormAction, HostEntry};
use koboterm::ui::osk::OskAction;

fn strings(v: &[&str]) -> Vec<String> {
    v.iter().map(|s| s.to_string()).collect()
}

#[test]
fn keyboard_band_sits_on_the_bottom_margin() {
    let l = Layout::compute(1000, 12, 32, true, 5);
    assert_eq!((l.term_top, l.term_bottom, l.osk_top, l.osk_bottom), (12, 812, 828, 988));
    let h = Layout::compute(1000, 12, 32, false, 5);
    assert_eq!((h.term_bottom, h.osk_top), (988, 828));
    assert!(!h.osk_visible);
    // A view smaller than the margin saturates to zero instead of wrapping.
    let tiny = Layout::compute(10, 12, 32, true, 5);
    assert_eq!((tiny.term_bottom, tiny.osk_top, tiny.osk_bottom), (0, 0, 0));
}

#[test]
fn swipes_scroll_by_lines() {
    assert_eq!(swipe((100, 100), (105, 200), true, 32), Some((3, true)));
    assert_eq!(swipe((100, 200), (100, 130), true, 32), Some((2, false)));
    assert_eq!(swipe((100, 100), (100, 150), true, 32), None, "too short");
    assert_eq!(swipe((100, 100), (300, 180), true, 32), None, "more sideways");
    assert_eq!(swipe((100, 100), (100, 200), false, 32), None, "not on the terminal");
    assert_eq!(swipe((100, 100), (100, 200), true, 1000), Some((1, true)), "at least one line");
}

#[test]
fn pressed_keys_release_when_due() {
    let mut p = vec![(1usize, 100u64), (2, 300), (3, 50)];
    assert_eq!(due_releases(&mut p, 100), vec![1, 3]);
    assert_eq!(p, vec![(2, 300)]);
    assert_eq!(due_releases(&mut p, 299), Vec::<usize>::new());
    assert_eq!(due_releases(&mut p, 300), vec![2]);
    assert!(p.is_empty());
    assert_eq!(release_at(1000), 1120);
}

#[test]
fn keys_map_to_session_and_form_steps() {
    assert_eq!(session_key(&OskAction::Home), SessionKey::GoHome);
    assert_eq!(session_key(&OskAction::Hide), SessionKey::HideKeyboard);
    assert_eq!(session_key(&OskAction::ModifierChanged), SessionKey::RedrawModifiers);
    assert_eq!(session_key(&OskAction::SendChar('a')), SessionKey::Type);
    assert_eq!(form_key(&OskAction::Hide), Some(FormAction::Cancel));
    assert_eq!(form_key(&OskAction::Home), Some(FormAction::Cancel));
    assert_eq!(form_key(&OskAction::ModifierChanged), Some(FormAction::Nothing));
    assert_eq!(form_key(&OskAction::Send(b"\r")), None);
}

#[test]
fn missing_command_falls_back_to_a_shell() {
    assert!(retry_with_shell(Some(127), true));
    assert!(!retry_with_shell(Some(127), false));
    assert!(!retry_with_shell(Some(0), true));
    assert!(!retry_with_shell(None, true));
    assert!(quick_failure(127, 4999));
    assert!(!quick_failure(127, 5000));
    assert!(!quick_failure(1, 10));
}

#[test]
fn screen_settles_after_quiet_or_timeout() {
    assert!(!screen_settled(1000, 0, 0));
    assert!(screen_settled(1200, 0, 0));
    assert!(!screen_settled(7000, 0, 6000));
    assert!(screen_settled(8000, 0, 7900));
}

#[test]
fn status_texts() {
    assert_eq!(added_text("vps"), "added vps");
    assert_eq!(ended_text("vps"), "vps: session ended");
    let e = HostEntry { name: "vps".into(), spec: "tunc@h:22".into(), command: None };
    assert_eq!(connecting_text(&e), "connecting to vps (tunc@h:22)...");
    assert_eq!(closed_text(0), "[session ended (0); tap to go home]");
    assert_eq!(closed_text(-1), "[session ended (-1); tap to go home]");
    assert_eq!(closed_text(i32::MIN), "[session ended (-2147483648); tap to go home]");
}

#[test]
fn typed_text_escapes() {
    assert_eq!(unescape_str("ls\\n"), "ls\n");
    assert_eq!(unescape_str("a\\tb\\\\n"), "a\tb\\\n");
    assert_eq!(unescape_str("\\"), "\\");
}

#[test]
fn run_arguments() {
    let r = RunArgs::parse(&strings(&["--type", "ls\\n", "--hold", "5", "--key", "k", "x", "y", "--", "a", "--hold"]));
    assert_eq!(r.typed, strings(&["ls\n"]));
    assert_eq!(r.hold, 5);
    assert_eq!(r.key.as_deref(), Some("k"));
    assert_eq!(r.remote_cmd, None);
    assert_eq!(r.cmd, strings(&["x", "y", "a", "--hold"]));
    let r = RunArgs::parse(&strings(&["--hold", "abc", "--cmd", "tmux", "--key"]));
    assert_eq!(r.hold, 2);
    assert_eq!(r.remote_cmd.as_deref(), Some("tmux"));
    assert_eq!(r.key, None);
    assert!(r.cmd.is_empty());
    let r = RunArgs::parse(&strings(&["--type"]));
    assert_eq!(r.typed, strings(&[""]));
}

#[test]
fn nickel_mode_from_arguments() {
    assert_eq!(Mode::parse("pause"), Mode::Pause);
    assert_eq!(Mode::parse("PAUSE"), Mode::Leave);
    assert_eq!(nickel_mode(&strings(&["--nickel", "pause"])), Mode::Pause);
    assert_eq!(nickel_mode(&strings(&["--nickel"])), Mode::Leave);
    assert_eq!(nickel_mode(&strings(&["x"])), Mode::Leave);
    assert_eq!(nickel_mode(&strings(&["--nickel", "pause", "--nickel", "leave"])), Mode::Leave);
}

#[test]
fn taps_press_keys_only_on_a_shown_keyboard() {
    assert_eq!(session_tap(true, Some(7)), TapTarget::Key(7));
    assert_eq!(session_tap(true, None), TapTarget::ToggleKeyboard);
    assert_eq!(session_tap(false, Some(7)), TapTarget::ToggleKeyboard);
    assert_eq!(session_tap(false, None), TapTarget::ToggleKeyboard);
}
