//! User-facing settings, kept in the store's settings table.

use vstd::prelude::*;
use crate::db::{
    auto_paste, clamp_cap, get_setting, max_items, max_items_spec, set_setting, setting_or, trim,
    trimmed_rows, with_rows, Store, StoreView,
};
use crate::portal::{portal_state_view, PortalState};
use crate::text::{i64_to_string, signed_decimal, trim_str};
use crate::DEFAULT_HOTKEY;

verus! {

pub const KEY_MAX_ITEMS: &'static str = "max_items";

pub const KEY_AUTO_PASTE: &'static str = "auto_paste";

pub const KEY_HOTKEY: &'static str = "hotkey_binding";

/// The settings as the panel shows them.
#[derive(Clone, Debug)]
pub struct Settings {
    /// Maximum number of unpinned entries retained.
    pub max_items: i64,
    /// Whether selecting an entry also synthesises Ctrl+V.
    pub auto_paste: bool,
    /// Accelerator written into the GNOME custom shortcut.
    pub hotkey_binding: String,
    /// Whether the GNOME shortcut slot is currently registered.
    pub hotkey_installed: bool,
    /// Whether the synthetic-input session is live.
    pub portal: PortalState,
    /// Always false on Linux; kept so the UI can hide the option.
    pub autostart_supported: bool,
}

impl Settings {
    /// The stored settings, with `hotkey_installed` as the shortcut check
    /// reported it and the portal still initialising.
    pub fn load(store: &Store, hotkey_installed: bool) -> (r: Settings)
        ensures
            r.max_items == max_items_spec(store@),
            r.auto_paste == (setting_or(store@, "auto_paste"@, "true"@) == "true"@),
            r.hotkey_binding@ == setting_or(store@, KEY_HOTKEY@, DEFAULT_HOTKEY@),
            r.hotkey_installed == hotkey_installed,
            portal_state_view(r.portal) == (0int, "initialising"@),
            !r.autostart_supported,
    {
        Settings {
            max_items: max_items(store),
            auto_paste: auto_paste(store),
            hotkey_binding: get_setting(store, KEY_HOTKEY, DEFAULT_HOTKEY),
            hotkey_installed,
            portal: PortalState::Unavailable { reason: "initialising".to_owned() },
            autostart_supported: false,
        }
    }
}

/// The fields a caller is allowed to change.
#[derive(Clone, Debug)]
pub struct SettingsPatch {
    pub max_items: Option<i64>,
    pub auto_paste: Option<bool>,
    pub hotkey_binding: Option<String>,
}

/// The store after a new history cap `m`: the cap clamped to 10..=10000,
/// stored as decimal text, and the history trimmed to it.
pub open spec fn after_max_items(v: StoreView, m: Option<i64>) -> StoreView {
    match m {
        Some(x) => {
            let c = clamp_cap(x as int);
            let v1 = StoreView { settings: v.settings.insert(KEY_MAX_ITEMS@, signed_decimal(c)), ..v };
            with_rows(v1, trimmed_rows(v1.rows, c as i64))
        },
        None => v,
    }
}

pub open spec fn after_auto_paste(v: StoreView, a: Option<bool>) -> StoreView {
    match a {
        Some(b) => StoreView {
            settings: v.settings.insert(KEY_AUTO_PASTE@, if b { "true"@ } else { "false"@ }),
            ..v
        },
        None => v,
    }
}

/// The accelerator a patch stores: the given one, trimmed, unless nothing
/// is left of it.
pub open spec fn patched_binding(h: Option<Seq<char>>) -> Option<Seq<char>> {
    match h {
        Some(x) => if crate::text::trim(x).len() > 0 {
            Some(crate::text::trim(x))
        } else {
            None
        },
        None => None,
    }
}

pub open spec fn after_hotkey(v: StoreView, h: Option<Seq<char>>) -> StoreView {
    match patched_binding(h) {
        Some(b) => StoreView { settings: v.settings.insert(KEY_HOTKEY@, b), ..v },
        None => v,
    }
}

pub open spec fn opt_view(h: Option<String>) -> Option<Seq<char>> {
    match h {
        Some(x) => Some(x@),
        None => None,
    }
}

/// The store after applying `p`: cap, then auto-paste, then shortcut.
pub open spec fn patched(v: StoreView, p: SettingsPatch) -> StoreView {
    after_hotkey(after_auto_paste(after_max_items(v, p.max_items), p.auto_paste), opt_view(p.hotkey_binding))
}

impl SettingsPatch {
    /// Store the changed settings. A new cap is clamped to 10..=10000 and
    /// the history is trimmed to it at once; a new accelerator is trimmed
    /// and ignored when nothing is left of it. Returns the accelerator that
    /// was stored, which the caller re-registers when the GNOME shortcut is
    /// installed.
    pub fn apply(&self, store: &mut Store) -> (r: Option<String>)
        requires
            old(store).wf(),
        ensures
            final(store).wf(),
            final(store)@ == patched(old(store)@, *self),
            opt_view(r) == patched_binding(opt_view(self.hotkey_binding)),
    {
        if let Some(value) = self.max_items {
            let clamped: i64 = if value < 10 {
                10
            } else if value > 10_000 {
                10_000
            } else {
                value
            };
            let text = i64_to_string(clamped);
            set_setting(store, KEY_MAX_ITEMS, text.as_str());
            let _ = trim(store, clamped);
        }
        if let Some(value) = self.auto_paste {
            set_setting(store, KEY_AUTO_PASTE, if value {
                "true"
            } else {
                "false"
            });
        }
        match &self.hotkey_binding {
            Some(value) => {
                let trimmed = trim_str(value.as_str());
                if trimmed.as_str().is_empty() {
                    None
                } else {
                    set_setting(store, KEY_HOTKEY, trimmed.as_str());
                    Some(trimmed)
                }
            },
            None => None,
        }
    }
}

proof fn lemma_keys_distinct()
    ensures
        KEY_MAX_ITEMS@ != KEY_AUTO_PASTE@,
        KEY_MAX_ITEMS@ != KEY_HOTKEY@,
        KEY_AUTO_PASTE@ != KEY_HOTKEY@,
        KEY_MAX_ITEMS@ == "max_items"@,
        KEY_AUTO_PASTE@ == "auto_paste"@,
        "true"@ != "false"@,
{
    reveal_strlit("max_items");
    reveal_strlit("auto_paste");
    reveal_strlit("hotkey_binding");
    reveal_strlit("true");
    reveal_strlit("false");
    assert(KEY_MAX_ITEMS@.len() == 9);
    assert(KEY_AUTO_PASTE@.len() == 10);
    assert(KEY_HOTKEY@.len() == 14);
    assert("true"@.len() == 4);
    assert("false"@.len() == 5);
}

/// A new cap reads back, clamped to 10..=10000, as the history cap.
pub proof fn lemma_patched_cap_reads_back(v: StoreView, p: SettingsPatch)
    requires
        p.max_items is Some,
    ensures
        max_items_spec(patched(v, p)) == clamp_cap(p.max_items->0 as int),
{
    lemma_keys_distinct();
    let c = clamp_cap(p.max_items->0 as int);
    let d = signed_decimal(c);
    assert(d == crate::text::decimal(c as nat));
    assert(d.len() > 0);
    crate::text::lemma_parse_decimal_round_trip(c as i64);
    let w = patched(v, p);
    assert(w.settings.contains_key(KEY_MAX_ITEMS@));
    assert(w.settings[KEY_MAX_ITEMS@] == d);
}

/// A new auto-paste flag reads back as stored.
pub proof fn lemma_patched_auto_paste_reads_back(v: StoreView, p: SettingsPatch)
    requires
        p.auto_paste is Some,
    ensures
        (setting_or(patched(v, p), "auto_paste"@, "true"@) == "true"@) == p.auto_paste->0,
{
    lemma_keys_distinct();
    reveal_strlit("true");
    reveal_strlit("false");
    let w = patched(v, p);
    assert(w.settings.contains_key(KEY_AUTO_PASTE@));
}

/// A new accelerator reads back trimmed, unless nothing was left of it.
pub proof fn lemma_patched_hotkey_reads_back(v: StoreView, p: SettingsPatch)
    requires
        patched_binding(opt_view(p.hotkey_binding)) is Some,
    ensures
        setting_or(patched(v, p), KEY_HOTKEY@, DEFAULT_HOTKEY@) == patched_binding(
            opt_view(p.hotkey_binding),
        )->0,
{
}

} // verus!
