use xinlan_clip::db::{auto_paste, get_setting, list_entries, max_items, upsert_entry, Store};
use xinlan_clip::portal::PortalState;
use xinlan_clip::settings::{Settings, SettingsPatch, KEY_HOTKEY};
use xinlan_clip::DEFAULT_HOTKEY;

#[test]
fn load_reports_defaults() {
    let store = Store::new();
    let s = Settings::load(&store, true);
    assert_eq!(s.max_items, 500);
    assert!(s.auto_paste);
    assert_eq!(s.hotkey_binding, DEFAULT_HOTKEY);
    assert!(s.hotkey_installed);
    assert!(!s.autostart_supported);
    match s.portal {
        PortalState::Unavailable { reason } => assert_eq!(reason, "initialising"),
        other => panic!("unexpected {other:?}"),
    }
}

#[test]
fn patch_clamps_cap_and_trims_history() {
    let mut store = Store::new();
    for i in 0..15 {
        upsert_entry(&mut store, &format!("t{i}"), &format!("h{i}"), i).unwrap();
    }
    let patch = SettingsPatch { max_items: Some(3), auto_paste: Some(false), hotkey_binding: None };
    assert_eq!(patch.apply(&mut store), None);
    assert_eq!(max_items(&store), 10);
    assert_eq!(get_setting(&store, "max_items", ""), "10");
    assert_eq!(list_entries(&store, None, 100).len(), 10);
    assert!(!auto_paste(&store));

    let big = SettingsPatch { max_items: Some(50_000), auto_paste: Some(true), hotkey_binding: None };
    big.apply(&mut store);
    assert_eq!(max_items(&store), 10_000);
    assert!(auto_paste(&store));
}

#[test]
fn patch_stores_trimmed_binding_and_ignores_blank() {
    let mut store = Store::new();
    let blank = SettingsPatch { max_items: None, auto_paste: None, hotkey_binding: Some("   ".to_string()) };
    assert_eq!(blank.apply(&mut store), None);
    assert_eq!(get_setting(&store, KEY_HOTKEY, "none"), "none");

    let set = SettingsPatch {
        max_items: None,
        auto_paste: None,
        hotkey_binding: Some("  <Super>v \n".to_string()),
    };
    assert_eq!(set.apply(&mut store), Some("<Super>v".to_string()));
    assert_eq!(Settings::load(&store, false).hotkey_binding, "<Super>v");
}
