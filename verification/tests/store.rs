use koboterm::store::{upsert_host, Settings};
use koboterm::ui::home::{HostEntry, TextSize};

fn hosts() -> Vec<HostEntry> {
    vec![
        HostEntry { name: "MacBook Pro M5".into(), spec: "tunc@192.168.0.199".into(), command: None },
        HostEntry { name: "vps".into(), spec: "tunc@server.wust.co:22".into(), command: Some("tmux new -A -s kobo".into()) },
    ]
}

#[test]
fn hosts_round_trip_through_the_text() {
    let hosts = hosts();
    let text = HostEntry::list_text(&hosts);
    assert_eq!(
        text,
        "# koboterm machines: name<TAB>user@host[:port]<TAB>command\nMacBook Pro M5\ttunc@192.168.0.199\t\nvps\ttunc@server.wust.co:22\ttmux new -A -s kobo\n"
    );
    assert_eq!(HostEntry::parse_list(&text), hosts);
}

#[test]
fn host_lines_are_trimmed_and_filtered() {
    let text = "# comment\n\n   \n  box \t u@h \t  \nnotab\nx\ty\tcmd\textra\r\n";
    let parsed = HostEntry::parse_list(text);
    assert_eq!(
        parsed,
        vec![
            HostEntry { name: "box".into(), spec: "u@h".into(), command: None },
            HostEntry { name: "x".into(), spec: "y".into(), command: Some("cmd".into()) },
        ]
    );
    // Tabs inside names are written as spaces.
    let t = HostEntry::list_text(&[HostEntry { name: "a\tb".into(), spec: "s".into(), command: None }]);
    assert!(t.ends_with("a b\ts\t\n"));
}

#[test]
fn registering_replaces_by_name_or_appends() {
    let mut hs = hosts();
    upsert_host(&mut hs, HostEntry { name: "vps".into(), spec: "root@vps".into(), command: None });
    assert_eq!(hs.len(), 2);
    assert_eq!(hs[1].spec, "root@vps");
    upsert_host(&mut hs, HostEntry { name: "pi".into(), spec: "pi@pi".into(), command: None });
    assert_eq!(hs.len(), 3);
    assert_eq!(hs[2].name, "pi");
}

#[test]
fn settings_parse_and_round_trip() {
    let s = Settings::from_text(" size = large \nmargin= 20\nother=1\n");
    assert_eq!(s, Settings { size: TextSize::Large, margin: 20 });
    assert_eq!(Settings::from_text(""), Settings { size: TextSize::Medium, margin: 12 });
    assert_eq!(Settings::from_text("margin=x"), Settings { size: TextSize::Medium, margin: 12 });
    assert_eq!(Settings::from_text("size=huge\nmargin=0"), Settings { size: TextSize::Medium, margin: 0 });
    let s = Settings { size: TextSize::Small, margin: 4_000_000_000 };
    assert_eq!(s.text(), "size=small\nmargin=4000000000\n");
    assert_eq!(Settings::from_text(&s.text()), s);
}
