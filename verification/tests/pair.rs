use koboterm::pair::{clamp_body, content_length, find_blank_line, form_safe_str, head_state, request_text, respond, url_safe_str, urldecode, HeadState};

#[test]
fn urldecode_handles_plus_and_percent() {
    assert_eq!(urldecode("MacBook+Pro+M5"), "MacBook Pro M5");
    assert_eq!(urldecode("tunc%40192.168.0.199"), "tunc@192.168.0.199");
    assert_eq!(urldecode("tmux%20new%20-A%20-s%20kobo"), "tmux new -A -s kobo");
    assert_eq!(urldecode("100%"), "100%");
}

#[test]
fn urldecode_edge_cases() {
    // A single hex digit at the very end still decodes.
    assert_eq!(urldecode("a%4"), "a\u{4}");
    // `from_str_radix` accepts a leading plus.
    assert_eq!(urldecode("%+f"), "\u{f}");
    assert_eq!(urldecode("%zz"), "%zz");
    assert_eq!(urldecode("%C3%A9"), "é");
    assert_eq!(urldecode("%FF"), "\u{FFFD}");
    assert_eq!(urldecode("plain text"), "plain text");
    assert!(url_safe_str("%aa€"));
    assert!(!url_safe_str("%aé"));
    assert!(!url_safe_str("%a€x"));
}

#[test]
fn heads_are_found_and_measured() {
    assert_eq!(find_blank_line(b"GET / HTTP/1.1\r\n\r\n"), Some(14));
    assert_eq!(find_blank_line(b"GET / HTTP/1.1\r\n"), None);
    assert_eq!(head_state(b"GET / HTTP/1.1\r\nHost: x"), HeadState::Incomplete);
    let big = vec![b'a'; 65537];
    assert_eq!(head_state(&big), HeadState::TooLarge);
    let req = b"POST /register HTTP/1.1\r\nHost: kobo\r\ncontent-LENGTH:  12 \r\n\r\nname=a&spec=";
    assert_eq!(head_state(req), HeadState::Complete { head_end: 61, content_len: 12 });
    assert_eq!(content_length("GET / HTTP/1.1\r\nContent-Length: x\r\nContent-Length: 5"), 0);
    assert_eq!(content_length("GET / HTTP/1.1\r\nX: 1\r\nContent-Length: +7"), 7);
    assert_eq!(content_length("GET / HTTP/1.1"), 0);
    assert_eq!(clamp_body(10), 10);
    assert_eq!(clamp_body(1 << 20), 65536);
    let (head, body) = request_text(req, 61, 12);
    assert!(head.starts_with("POST /register"));
    assert_eq!(body, "name=a&spec=");
    let (_, short) = request_text(req, 61, 100);
    assert_eq!(short, "name=a&spec=");
}

fn text(b: &[u8]) -> String {
    String::from_utf8(b.to_vec()).unwrap()
}

#[test]
fn routes_answer_as_documented() {
    let (r, e) = respond("GET /key HTTP/1.1\r\n\r\n", "", "#!/bin/sh\n", "ssh-ed25519 AAAA kobo");
    assert_eq!(text(&r), "HTTP/1.1 200 OK\r\nContent-Type: text/plain\r\nContent-Length: 22\r\nConnection: close\r\n\r\nssh-ed25519 AAAA kobo\n");
    assert!(e.is_none());
    let (r, _) = respond("GET /install.sh HTTP/1.1\r\n\r\n", "", "#!/bin/sh\né\n", "k");
    assert_eq!(text(&r), "HTTP/1.1 200 OK\r\nContent-Type: text/x-shellscript\r\nContent-Length: 13\r\nConnection: close\r\n\r\n#!/bin/sh\né\n");
    let (r, _) = respond("GET / HTTP/1.1\r\n\r\n", "", "", "k");
    assert!(text(&r).contains("koboterm pairing server\n  GET /install.sh"));
    let (r, _) = respond("DELETE /key HTTP/1.1\r\n\r\n", "", "", "k");
    assert_eq!(text(&r), "HTTP/1.1 404 Not Found\r\nContent-Type: text/plain\r\nContent-Length: 10\r\nConnection: close\r\n\r\nnot found\n");
    let (r, _) = respond("", "", "", "k");
    assert!(text(&r).starts_with("HTTP/1.1 404 Not Found"));
}

#[test]
fn registration_needs_a_name_and_a_user() {
    let head = "POST /register HTTP/1.1\r\n\r\n";
    let (r, e) = respond(head, "name=+&spec=tunc%40h", "", "k");
    assert!(text(&r).starts_with("HTTP/1.1 400 Bad Request"));
    assert!(text(&r).ends_with("need name and spec=user@host\n"));
    assert!(e.is_none());
    let (_, e) = respond(head, "name=box&spec=nohost", "", "k");
    assert!(e.is_none());
    let body = "name=MacBook+Pro&spec=tunc%40192.168.0.199&cmd=tmux+new+-A+-s+kobo&x=1";
    assert!(form_safe_str(body));
    let (r, e) = respond(head, body, "", "k");
    assert!(text(&r).ends_with("registered\n"));
    let e = e.unwrap();
    assert_eq!(e.name, "MacBook Pro");
    assert_eq!(e.spec, "tunc@192.168.0.199");
    assert_eq!(e.command.as_deref(), Some("tmux new -A -s kobo"));
    let (_, e) = respond(head, "name=a&name=b&spec=u@h&cmd=+", "", "k");
    let e = e.unwrap();
    assert_eq!(e.name, "b");
    assert_eq!(e.command, None);
}

#[test]
fn install_script_fills_key_and_url() {
    let t = "KEY='__KOBO_KEY__'\nURL=__KOBO_URL__/register\n# __KOBO_URL__\n";
    let s = koboterm::pair::install_script(t, " ssh-ed25519 AAAA koboterm\n", "http://10.0.0.2:8080");
    assert_eq!(s, "KEY='ssh-ed25519 AAAA koboterm'\nURL=http://10.0.0.2:8080/register\n# http://10.0.0.2:8080\n");
    assert_eq!(koboterm::pair::install_script("plain", "k", "u"), "plain");
}

#[test]
fn request_line_method_and_path() {
    let (m, p) = koboterm::pair::request_line_str("POST /register HTTP/1.1\r\nHost: x\r\n");
    assert_eq!((m.as_str(), p.as_str()), ("POST", "/register"));
    let (m, p) = koboterm::pair::request_line_str("GET");
    assert_eq!((m.as_str(), p.as_str()), ("GET", "/"));
    let (m, p) = koboterm::pair::request_line_str("");
    assert_eq!((m.as_str(), p.as_str()), ("", "/"));
}

#[test]
fn registering_a_machine_answers_200_and_hands_over_the_entry() {
    let head = "POST /register HTTP/1.1\r\nContent-Length: 48\r\n\r\n";
    let body = "name=MacBook+Pro&spec=tunc%40192.168.0.199&cmd=";
    let (r, e) = respond(head, body, "", "k");
    assert!(text(&r).starts_with("HTTP/1.1 200 OK"));
    assert!(text(&r).ends_with("registered\n"));
    let e = e.unwrap();
    assert_eq!((e.name.as_str(), e.spec.as_str(), e.command.clone()), ("MacBook Pro", "tunc@192.168.0.199", None));
    let (r, e) = respond(head, "name=MacBook+Pro&spec=nohost&cmd=", "", "k");
    assert!(text(&r).starts_with("HTTP/1.1 400"));
    assert!(e.is_none());
}

#[test]
fn replacement_runs_left_to_right_without_overlap() {
    let r = |s: &str, a: &str, b: &str| -> String {
        let v: Vec<char> = s.chars().collect();
        let f: Vec<char> = a.chars().collect();
        let t: Vec<char> = b.chars().collect();
        koboterm::pair::replace_chars(&v, &f, &t).into_iter().collect()
    };
    for (s, a, b) in [("aaaa", "aa", "b"), ("aaa", "aa", "X"), ("abcab", "ab", "X"), ("", "x", "y"), ("héé", "é", "e"), ("xx", "xyz", "q")] {
        assert_eq!(r(s, a, b), s.replace(a, b), "{s} {a} {b}");
    }
    assert_eq!(koboterm::pair::install_script("__KOBO_KEY____KOBO_KEY__", "k", "u"), "kk");
}
