use koboterm::device::{battery, brightness, brightness_text};
use koboterm::transport::{SshTarget, TargetError};
use std::path::PathBuf;

#[test]
fn battery_from_sysfs_text() {
    assert_eq!(battery("87\n", Some("Charging\n")), (Some(87), true));
    assert_eq!(battery("100", Some("Full")), (Some(100), true));
    assert_eq!(battery("150", Some("Discharging")), (Some(100), false));
    assert_eq!(battery("x", None), (None, false));
    assert_eq!(battery("300", Some("charging")), (None, true));
}

#[test]
fn frontlight_text() {
    assert_eq!(brightness(" 42 \n"), Some(42));
    assert_eq!(brightness("300"), None);
    assert_eq!(brightness(""), None);
    assert_eq!(brightness_text(30), "30\n");
    assert_eq!(brightness_text(130), "100\n");
}

#[test]
fn ssh_targets() {
    let t = SshTarget::parse("tunc@host:2222", PathBuf::from("k"), Some("tmux".into())).unwrap();
    assert_eq!((t.user.as_str(), t.host.as_str(), t.port), ("tunc", "host", 2222));
    assert_eq!(t.key_path, PathBuf::from("k"));
    assert_eq!(t.command.as_deref(), Some("tmux"));
    let t = SshTarget::parse("a@b", PathBuf::from("k"), None).unwrap();
    assert_eq!((t.user.as_str(), t.host.as_str(), t.port), ("a", "b", 22));
    let t = SshTarget::parse("u@[::1]:22", PathBuf::from("k"), None).unwrap();
    assert_eq!((t.host.as_str(), t.port), ("[::1]", 22));
    assert_eq!(SshTarget::parse("nohost", PathBuf::from("k"), None).unwrap_err(), TargetError::Shape);
    assert_eq!(SshTarget::parse("u@h:x", PathBuf::from("k"), None).unwrap_err(), TargetError::BadPort);
    assert_eq!(SshTarget::parse("u@h:70000", PathBuf::from("k"), None).unwrap_err(), TargetError::BadPort);
    assert_eq!(SshTarget::parse("@h", PathBuf::from("k"), None).unwrap_err(), TargetError::Shape);
    assert_eq!(SshTarget::parse("u@", PathBuf::from("k"), None).unwrap_err(), TargetError::Shape);
    assert_eq!(TargetError::BadPort.message(), "bad port");
}

#[test]
fn brightness_reads_back_what_was_written() {
    for p in [0u8, 7, 55, 100, 101, 255] {
        assert_eq!(brightness(&brightness_text(p)), Some(p.min(100)));
    }
}
