use xinlan_clip::clipboard::hash_u64;
use xinlan_clip::commands::{
    capture_clipboard, capture_skipped, clear_history, get_settings, hotkey_to_install, list_entries,
    paste_entry, paste_entry_text, paste_finished, paste_without_session, AUTO_PASTE_OFF,
    ENTRY_GONE, KEYSTROKE_FAILED, NO_INPUT_PERMISSION,
};
use xinlan_clip::db::{counts, get_entry, set_setting, toggle_pin, Store};
use xinlan_clip::portal::PortalState;
use xinlan_clip::settings::KEY_HOTKEY;
use xinlan_clip::DEFAULT_HOTKEY;

#[test]
fn capture_records_new_text_once() {
    let mut store = Store::new();
    let first = capture_clipboard(&mut store, false, Some("hello".to_string()), 0, 100).unwrap();
    let e = first.entry.expect("recorded");
    assert_eq!((e.text.as_str(), e.use_count, e.last_used_at), ("hello", 1, 100));
    assert_eq!(first.trimmed, 0);
    // The next poll sees the same clipboard.
    let again = capture_clipboard(&mut store, false, Some("hello".to_string()), 0, 101).unwrap();
    assert!(again.entry.is_none());
    assert_eq!(counts(&store), (1, 0));
}

#[test]
fn capture_skips_pause_empty_missing_and_own_writes() {
    let mut store = Store::new();
    let none = |r: xinlan_clip::commands::CaptureResult| r.entry.is_none() && r.trimmed == 0;
    assert!(none(capture_clipboard(&mut store, true, Some("x".to_string()), 0, 1).unwrap()));
    assert!(none(capture_clipboard(&mut store, false, None, 0, 1).unwrap()));
    assert!(none(capture_clipboard(&mut store, false, Some(String::new()), 0, 1).unwrap()));
    let own = hash_u64("pasted");
    assert!(none(capture_clipboard(&mut store, false, Some("pasted".to_string()), own, 1).unwrap()));
    assert_eq!(counts(&store), (0, 0));
}

#[test]
fn capture_trims_to_the_stored_cap() {
    let mut store = Store::new();
    set_setting(&mut store, "max_items", "10");
    for i in 0..10 {
        capture_clipboard(&mut store, false, Some(format!("c{i}")), 0, i).unwrap();
    }
    let r = capture_clipboard(&mut store, false, Some("c10".to_string()), 0, 50).unwrap();
    assert_eq!(r.trimmed, 1);
    assert_eq!(counts(&store), (10, 0));
    // The oldest one went.
    let texts: Vec<String> = list_entries(&store, None, None).into_iter().map(|e| e.text).collect();
    assert!(!texts.contains(&"c0".to_string()));
    assert_eq!(texts[0], "c10");
}

#[test]
fn command_defaults() {
    let mut store = Store::new();
    for i in 0..250 {
        capture_clipboard(&mut store, false, Some(format!("v{i}")), 0, i).unwrap();
    }
    assert_eq!(list_entries(&store, None, None).len(), 200);
    assert_eq!(list_entries(&store, Some("v24".to_string()), Some(5)).len(), 5);
    let pinned_id = list_entries(&store, None, Some(1))[0].id;
    toggle_pin(&mut store, pinned_id);
    assert_eq!(clear_history(&mut store, None), 249);
    assert_eq!(clear_history(&mut store, Some(false)), 1);
}

#[test]
fn pasting_an_entry() {
    let mut store = Store::new();
    let id = capture_clipboard(&mut store, false, Some("abc".to_string()), 0, 10)
        .unwrap()
        .entry
        .unwrap()
        .id;
    assert_eq!(paste_entry_text(&store, id), Ok("abc".to_string()));
    assert_eq!(paste_entry_text(&store, 77), Err(ENTRY_GONE.to_string()));

    // A missing entry is reported and nothing changes.
    assert_eq!(paste_entry(&mut store, 77, 15, Some(true)).unwrap_err(), ENTRY_GONE);
    assert_eq!(counts(&store), (1, 0));
    assert_eq!(get_entry(&store, id).unwrap().use_count, 1);

    // Auto-paste on by default: go on and paste.
    assert!(paste_entry(&mut store, id, 20, None).unwrap().is_none());
    assert_eq!(get_entry(&store, id).unwrap().use_count, 2);

    let off = paste_entry(&mut store, id, 30, Some(false)).unwrap().unwrap();
    assert!(off.copied && !off.pasted);
    assert_eq!(off.reason.unwrap(), AUTO_PASTE_OFF);

    set_setting(&mut store, "auto_paste", "false");
    assert!(paste_entry(&mut store, id, 40, None).unwrap().is_some());
    assert!(paste_entry(&mut store, id, 50, Some(true)).unwrap().is_none());

    let no_session = paste_without_session();
    assert_eq!(no_session.reason.unwrap(), NO_INPUT_PERMISSION);
    let ok = paste_finished(Ok(()));
    assert!(ok.copied && ok.pasted && ok.reason.is_none());
    let failed = paste_finished(Err("boom".to_string()));
    assert!(failed.copied && !failed.pasted);
    assert_eq!(failed.reason.unwrap(), format!("{KEYSTROKE_FAILED}boom"));
    assert_eq!(KEYSTROKE_FAILED, "模拟按键失败（内容已复制）：");
}

#[test]
fn settings_and_hotkey_commands() {
    let mut store = Store::new();
    let s = get_settings(&store, false, PortalState::Ready);
    assert!(matches!(s.portal, PortalState::Ready));
    assert_eq!(hotkey_to_install(None, None), DEFAULT_HOTKEY);
    assert_eq!(hotkey_to_install(Some("  ".to_string()), Some(&store)), DEFAULT_HOTKEY);
    set_setting(&mut store, KEY_HOTKEY, "<Super>x");
    assert_eq!(hotkey_to_install(None, Some(&store)), "<Super>x");
    assert_eq!(hotkey_to_install(Some(" <Alt>q ".to_string()), Some(&store)), " <Alt>q ");
}

#[test]
fn capture_skip_decision() {
    let hello = Some("hello".to_string());
    assert!(capture_skipped(true, &hello, 0));
    assert!(capture_skipped(false, &None, 0));
    assert!(capture_skipped(false, &Some(String::new()), 0));
    assert!(!capture_skipped(false, &hello, 0));
    assert!(capture_skipped(false, &hello, hash_u64("hello")));
    assert!(!capture_skipped(false, &hello, hash_u64("world")));
}
