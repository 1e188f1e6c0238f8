use expert_spoon::config::{Action, Config, HotkeyEntry};
use expert_spoon::yaml::{load_from_str, parse_config, parse_entry_str, to_yaml, to_yaml_entry, LoadError};

fn entry(key: &str, name: &str, command: &str, args: &[&str]) -> HotkeyEntry {
    HotkeyEntry {
        key: key.to_string(),
        name: name.to_string(),
        action: Action::ActionOpen {
            command: command.to_string(),
            args: args.iter().map(|a| a.to_string()).collect(),
        },
    }
}

#[test]
fn entry_round_trips_through_yaml() {
    let e = entry("CmdOrCtrl+Shift+O", "Open notes", "echo", &["hi"]);
    let text = to_yaml_entry(&e);
    let back = parse_entry_str(&text).expect("written entry must read back");
    assert_eq!(back, e);
}

#[test]
fn config_round_trips_through_yaml() {
    let c = Config {
        version: 1,
        hotkeys: vec![
            entry("Ctrl+1", "A", "echo", &["hi", "there"]),
            entry("Ctrl+2", "B", "ls", &[]),
        ],
    };
    let text = to_yaml(&c);
    let back = parse_config(&text).expect("written config must read back");
    assert_eq!(back, c);
}

#[test]
fn empty_hotkey_list_round_trips() {
    let c = Config { version: 1, hotkeys: vec![] };
    let back = parse_config(&to_yaml(&c)).expect("empty config must read back");
    assert_eq!(back, c);
}

#[test]
fn written_text_has_expected_shape() {
    let c = Config { version: 1, hotkeys: vec![entry("Ctrl+1", "A", "echo", &["hi"])] };
    let expected = "version: 1\nhotkeys:\n  - key: \"Ctrl+1\"\n    name: \"A\"\n    action:\n      type: open\n      command: \"echo\"\n      args: [\"hi\"]\n";
    assert_eq!(to_yaml(&c), expected);
}

#[test]
fn written_text_is_valid_yaml_for_standard_readers() {
    let c = Config {
        version: 1,
        hotkeys: vec![
            entry("Ctrl+1", "A", "echo", &["hi", "there"]),
            entry("Ctrl+2", "B", "ls", &[]),
        ],
    };
    let v: serde_yaml::Value = serde_yaml::from_str(&to_yaml(&c)).expect("must be valid YAML");
    assert_eq!(v["version"].as_u64(), Some(1));
    let hk = v["hotkeys"].as_sequence().expect("hotkeys must be a sequence");
    assert_eq!(hk.len(), 2);
    assert_eq!(hk[0]["key"].as_str(), Some("Ctrl+1"));
    assert_eq!(hk[0]["name"].as_str(), Some("A"));
    assert_eq!(hk[0]["action"]["type"].as_str(), Some("open"));
    assert_eq!(hk[0]["action"]["command"].as_str(), Some("echo"));
    let args = hk[0]["action"]["args"].as_sequence().expect("args must be a sequence");
    assert_eq!(args.len(), 2);
    assert_eq!(args[0].as_str(), Some("hi"));
    assert_eq!(args[1].as_str(), Some("there"));
    assert_eq!(hk[1]["action"]["args"].as_sequence().map(|s| s.len()), Some(0));
}

#[test]
fn wrong_version_is_rejected() {
    let c = Config { version: 2, hotkeys: vec![] };
    let r = load_from_str(&to_yaml(&c));
    assert_eq!(r.unwrap_err(), LoadError::WrongVersion { found: 2 });
}

#[test]
fn version_one_is_accepted() {
    let c = Config { version: 1, hotkeys: vec![entry("Ctrl+1", "A", "echo", &[])] };
    let r = load_from_str(&to_yaml(&c)).expect("version 1 must load");
    assert_eq!(r, c);
}

#[test]
fn malformed_text_is_rejected() {
    assert_eq!(load_from_str("not a config").unwrap_err(), LoadError::Malformed);
    assert_eq!(load_from_str("").unwrap_err(), LoadError::Malformed);
    assert_eq!(load_from_str("version: 1\n").unwrap_err(), LoadError::Malformed);
    assert_eq!(load_from_str("version: 1\nhotkeys:\n").unwrap_err(), LoadError::Malformed);
}

#[test]
fn leading_zero_version_is_rejected() {
    assert!(parse_config("version: 007\nhotkeys: []\n").is_none());
}

#[test]
fn three_digit_version_round_trips() {
    let c = Config { version: 137, hotkeys: vec![] };
    let text = to_yaml(&c);
    assert!(text.starts_with("version: 137\n"));
    let r = load_from_str(&text);
    assert_eq!(r.unwrap_err(), LoadError::WrongVersion { found: 137 });
}

#[test]
fn version_check_is_exact() {
    let ok = Config { version: 1, hotkeys: vec![] };
    let bad = Config { version: 0, hotkeys: vec![] };
    assert!(ok.check_version().is_ok());
    assert_eq!(bad.check_version().unwrap_err().found, 0);
}

#[test]
fn wellformedness_rejects_unsafe_strings() {
    let good = entry("Ctrl+1", "A", "echo", &["hi"]);
    assert!(good.is_wf());
    let bad = entry("Ctrl+1", "A\"B", "echo", &[]);
    assert!(!bad.is_wf());
    let bad_arg = entry("Ctrl+1", "A", "echo", &["a\nb"]);
    assert!(!bad_arg.is_wf());
}
