use expert_spoon::config::{Action, Config, HotkeyEntry};
use expert_spoon::dispatch::{Outcome, Session, UiEvent};
use expert_spoon::hotkeys::{menu_labels, prepare_hotkeys, RegisterError};

fn entry(key: &str, name: &str, command: &str) -> HotkeyEntry {
    HotkeyEntry {
        key: key.to_string(),
        name: name.to_string(),
        action: Action::ActionOpen { command: command.to_string(), args: vec![] },
    }
}

fn two_entry_config() -> Config {
    Config { version: 1, hotkeys: vec![entry("Ctrl+1", "A", "echo"), entry("Ctrl+2", "B", "ls")] }
}

#[test]
fn menu_has_both_labels_and_quit() {
    let labels = menu_labels(&two_entry_config());
    assert_eq!(labels, vec!["A (Ctrl+1)".to_string(), "B (Ctrl+2)".to_string(), "Quit".to_string()]);
}

#[test]
fn valid_keys_register_with_distinct_ids() {
    let v = prepare_hotkeys(&two_entry_config()).expect("two distinct keys must register");
    assert_eq!(v.len(), 2);
    assert_ne!(v[0].hotkey_id, v[1].hotkey_id);
}

#[test]
fn unparseable_key_is_rejected() {
    let c = Config { version: 1, hotkeys: vec![entry("NotAKey+++", "A", "echo")] };
    assert_eq!(prepare_hotkeys(&c).unwrap_err(), RegisterError::BadKey { index: 0 });
}

#[test]
fn equal_key_combinations_are_rejected_even_under_different_spellings() {
    let c = Config {
        version: 1,
        hotkeys: vec![entry("Ctrl+1", "A", "echo"), entry("Control+1", "B", "ls")],
    };
    assert_eq!(prepare_hotkeys(&c).unwrap_err(), RegisterError::DuplicateKey { index: 1 });
}

#[test]
fn fired_hotkey_executes_its_entry() {
    let regs = prepare_hotkeys(&two_entry_config()).unwrap();
    let second_id = regs[1].hotkey_id;
    let mut s = Session::new(regs);
    match s.step(&UiEvent::HotkeyFired { id: second_id }) {
        Outcome::Execute(Action::ActionOpen { command, .. }) => assert_eq!(command, "ls"),
        other => panic!("expected an execute outcome, got {other:?}"),
    }
}

#[test]
fn unknown_hotkey_id_does_nothing() {
    let regs = prepare_hotkeys(&two_entry_config()).unwrap();
    let known: Vec<u32> = regs.iter().map(|r| r.hotkey_id).collect();
    let mut unknown: u32 = 0;
    while known.contains(&unknown) {
        unknown += 1;
    }
    let mut s = Session::new(regs);
    assert!(matches!(s.step(&UiEvent::HotkeyFired { id: unknown }), Outcome::Nothing));
}

#[test]
fn tray_choice_executes_its_entry() {
    let regs = prepare_hotkeys(&two_entry_config()).unwrap();
    let mut s = Session::new(regs);
    match s.step(&UiEvent::TraySelected { index: 0 }) {
        Outcome::Execute(Action::ActionOpen { command, .. }) => assert_eq!(command, "echo"),
        other => panic!("expected an execute outcome, got {other:?}"),
    }
}

#[test]
fn quit_stops_the_session_and_nothing_runs_after() {
    let regs = prepare_hotkeys(&two_entry_config()).unwrap();
    let first_id = regs[0].hotkey_id;
    let mut s = Session::new(regs);
    let quit = s.quit_index();
    assert!(matches!(s.step(&UiEvent::MenuSelected { index: quit }), Outcome::Exit));
    assert!(matches!(s.step(&UiEvent::HotkeyFired { id: first_id }), Outcome::Nothing));
    assert!(matches!(s.step(&UiEvent::TraySelected { index: 0 }), Outcome::Nothing));
    assert!(matches!(s.step(&UiEvent::MenuSelected { index: quit }), Outcome::Nothing));
}

#[test]
fn non_quit_menu_choice_does_nothing() {
    let regs = prepare_hotkeys(&two_entry_config()).unwrap();
    let mut s = Session::new(regs);
    assert!(matches!(s.step(&UiEvent::MenuSelected { index: 0 }), Outcome::Nothing));
    assert!(matches!(s.step(&UiEvent::Other), Outcome::Nothing));
}
