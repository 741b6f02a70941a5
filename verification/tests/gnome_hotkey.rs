use xinlan_clip::gnome_hotkey::{
    install, parse_binding_list, render_binding_list, slot_path, slot_schema, status, uninstall,
    CUSTOM_SCHEMA_PREFIX, MEDIA_KEYS_SCHEMA, SHORTCUT_NAME,
};

#[test]
fn parses_empty_and_populated_lists() {
    assert!(parse_binding_list("@as []").is_empty());
    assert!(parse_binding_list("[]").is_empty());
    assert_eq!(
        parse_binding_list("['/a/', '/b/']"),
        vec!["/a/".to_string(), "/b/".to_string()]
    );
}

#[test]
fn render_round_trips() {
    assert_eq!(render_binding_list(&[]), "@as []");
    let list = vec!["/a/".to_string(), "/b/".to_string()];
    assert_eq!(render_binding_list(&list), "['/a/', '/b/']");
    assert_eq!(parse_binding_list(&render_binding_list(&list)), list);
}

#[test]
fn slot_path_is_slash_terminated() {
    assert!(slot_path().ends_with('/'));
    assert!(slot_schema().contains(CUSTOM_SCHEMA_PREFIX));
}

#[test]
fn parse_accepts_double_quotes_and_stray_whitespace() {
    assert_eq!(
        parse_binding_list("  [\"/x/\" ,  '/y/'  ]\n"),
        vec!["/x/".to_string(), "/y/".to_string()]
    );
    assert_eq!(parse_binding_list("['/only/']"), vec!["/only/".to_string()]);
    assert!(parse_binding_list("").is_empty());
}

#[test]
fn slot_path_is_the_documented_dconf_path() {
    assert_eq!(
        slot_path(),
        "/org/gnome/settings-daemon/plugins/media-keys/custom-keybindings/xinlan-clip/"
    );
    assert_eq!(
        slot_schema(),
        format!("{}:{}", CUSTOM_SCHEMA_PREFIX, slot_path())
    );
}

fn strings(items: &[&str]) -> Vec<String> {
    items.iter().map(|s| s.to_string()).collect()
}

#[test]
fn install_adds_slot_once_and_keeps_other_shortcuts() {
    let plan = install("/usr/bin/xinlan-clip", None, "<Control><Alt>v", "['/other/']");
    assert_eq!(plan.binding, "<Control><Alt>v");
    let schema = slot_schema();
    let list = format!("['/other/', '{}']", slot_path());
    assert_eq!(
        plan.calls,
        vec![
            strings(&["set", MEDIA_KEYS_SCHEMA, "custom-keybindings", &list]),
            strings(&["set", &schema, "name", SHORTCUT_NAME]),
            strings(&["set", &schema, "command", "/usr/bin/xinlan-clip --toggle"]),
            strings(&["set", &schema, "binding", "<Control><Alt>v"]),
        ]
    );
    // Writing the planned list registers the slot.
    assert!(status(&list));

    // Already registered: only the slot's own keys are rewritten.
    let again = install("/opt/x", Some("<Super>c"), "<Control><Alt>v", &list);
    assert_eq!(again.binding, "<Super>c");
    assert_eq!(again.calls.len(), 3);
    assert_eq!(again.calls[2], strings(&["set", &schema, "binding", "<Super>c"]));
}

#[test]
fn uninstall_removes_only_the_slot() {
    let list = format!("['/a/', '{}', '/b/']", slot_path());
    let plan = uninstall(&list);
    let update = plan.update.expect("slot was listed");
    assert_eq!(
        update,
        strings(&["set", MEDIA_KEYS_SCHEMA, "custom-keybindings", "['/a/', '/b/']"])
    );
    assert!(!status(&update[3]));
    let schema = slot_schema();
    assert_eq!(
        plan.resets,
        vec![
            strings(&["reset", &schema, "binding"]),
            strings(&["reset", &schema, "command"]),
            strings(&["reset", &schema, "name"]),
        ]
    );

    let untouched = uninstall("['/a/']");
    assert!(untouched.update.is_none());
    assert_eq!(untouched.resets.len(), 3);

    let emptied = uninstall(&format!("['{}']", slot_path()));
    assert_eq!(
        emptied.update.unwrap(),
        strings(&["set", MEDIA_KEYS_SCHEMA, "custom-keybindings", "@as []"])
    );
}

#[test]
fn status_reports_registration() {
    assert!(!status("@as []"));
    assert!(status(&format!("['{}']", slot_path())));
}

/// The list text an install plan leaves: the planned list write, if any.
fn list_after(plan_calls: &[Vec<String>], before: &str) -> String {
    match plan_calls.iter().find(|c| c[2] == "custom-keybindings") {
        Some(call) => call[3].clone(),
        None => before.to_string(),
    }
}

#[test]
fn install_registers_even_for_odd_lists() {
    for before in ["@as []", "['\"'a'\"']", "[\"'\"]", "[' x ', '/b/']"] {
        let plan = install("/usr/bin/xinlan-clip", None, "<Control><Alt>v", before);
        assert!(status(&list_after(&plan.calls, before)), "{before}");
    }
}

#[test]
fn install_then_uninstall_restores_the_list() {
    for before in ["@as []", "['/a/']", "['/a/', '/b/']"] {
        let plan = install("/usr/bin/xinlan-clip", None, "<Control><Alt>v", before);
        let installed = list_after(&plan.calls, before);
        let removed = uninstall(&installed).update.expect("slot was listed");
        assert_eq!(parse_binding_list(&removed[3]), parse_binding_list(before));
        assert!(!status(&removed[3]));
    }
}
