//! The logic of the commands the panel calls: capturing the clipboard into
//! the history, listing, clearing, pasting an entry back, and the settings
//! and shortcut commands. Reading and writing the clipboard, hiding the
//! window, waiting for focus and talking to the portal are the caller's;
//! these functions decide what happens around them.

use vstd::prelude::*;
use crate::clipboard::{
    be_value, hash_text, hash_u64, is_self_written, lower_hex, sha256_digest, text_bytes,
};
use crate::db::{
    has_hash, index_of_hash, is_newest, lemma_trim_keeps_newest_row, newer, newest_has_hash,
    auto_paste, clamp_limit, entry_views, get_entry, get_setting, has_id, index_of_id,
    listing_ok, mark_used, max_items, max_items_spec, search_term, setting_or, trim,
    trimmed_rows, upsert_entry, upsert_spec, with_rows, Entry, EntryView,
    Store, StoreView, USE_COUNT_OVERFLOW, touched, with_entry,
};
use crate::portal::{portal_state_view, PortalState};
use crate::settings::{opt_view, Settings, KEY_HOTKEY};
use crate::text::trim_str;
use crate::DEFAULT_HOTKEY;

verus! {

/// What one capture did.
#[derive(Clone, Debug)]
pub struct CaptureResult {
    /// Present when the clipboard held text we had not already recorded.
    pub entry: Option<Entry>,
    /// Number of entries removed by the retention pass.
    pub trimmed: u64,
}

/// What selecting an entry achieved.
#[derive(Clone, Debug)]
pub struct PasteOutcome {
    /// The entry text is on the clipboard.
    pub copied: bool,
    /// Ctrl+V was synthesised into the focused window.
    pub pasted: bool,
    /// Why the synthetic paste did not happen, when it did not.
    pub reason: Option<String>,
}

pub const ENTRY_GONE: &'static str = "该记录已不存在";

pub const AUTO_PASTE_OFF: &'static str = "自动粘贴已关闭";

pub const NO_INPUT_PERMISSION: &'static str = "未获得输入权限，内容已复制";

pub const KEYSTROKE_FAILED: &'static str = "模拟按键失败（内容已复制）：";

/// The history hash of a text: lower-case hex of its SHA-256.
pub open spec fn content_hash(t: Seq<char>) -> Seq<char> {
    lower_hex(sha256_digest(text_bytes(t)))
}

/// The 64-bit fingerprint the self-write guard compares.
pub open spec fn fingerprint(t: Seq<char>) -> int {
    be_value(sha256_digest(text_bytes(t)).take(8))
}

/// A capture records nothing: paused, no text on the clipboard, empty text,
/// or our own most recent write echoed back.
pub open spec fn capture_skips(paused: bool, clip: Option<Seq<char>>, last_written: u64) -> bool {
    paused || match clip {
        None => true,
        Some(t) => t.len() == 0 || (fingerprint(t) != 0 && last_written == fingerprint(t)),
    }
}

pub open spec fn entry_opt_view(e: Option<Entry>) -> Option<EntryView> {
    match e {
        Some(x) => Some(x@),
        None => None,
    }
}

/// The store after a capture that records text `t` at `now`: the upsert,
/// then the retention pass with the stored cap.
pub open spec fn captured_store(v: StoreView, t: Seq<char>, now: i64) -> StoreView {
    let v1 = upsert_spec(v, t, content_hash(t), now).1;
    with_rows(v1, trimmed_rows(v1.rows, max_items_spec(v1) as i64))
}

/// Whether a capture records nothing (see [`capture_clipboard`]): paused,
/// no text or empty text on the clipboard, or our own last write echoed
/// back. The caller may test this before opening the history.
pub fn capture_skipped(paused: bool, clipboard: &Option<String>, last_written: u64) -> (r: bool)
    ensures
        r == capture_skips(paused, opt_view(*clipboard), last_written),
{
    if paused {
        return true;
    }
    match clipboard {
        None => true,
        Some(text) => text.as_str().is_empty() || is_self_written(hash_u64(text.as_str()), last_written),
    }
}

/// Fold the clipboard text `clipboard` (`None` when it holds no text) into
/// the history at time `now`. `paused` is the user's pause switch and
/// `last_written` the fingerprint of our own last clipboard write. After
/// every capture that is not skipped (whether it added an entry, reused one
/// or answered `None`) the history is trimmed to the stored cap.
pub fn capture_clipboard(
    store: &mut Store,
    paused: bool,
    clipboard: Option<String>,
    last_written: u64,
    now: i64,
) -> (r: Result<CaptureResult, String>)
    requires
        old(store).wf(),
    ensures
        final(store).wf(),
        ({
            let v = old(store)@;
            let clip = opt_view(clipboard);
            if capture_skips(paused, clip, last_written) {
                r matches Ok(c) && c.entry is None && c.trimmed == 0 && final(store)@ == v
            } else {
                let t = clip->0;
                let (res, v1) = upsert_spec(v, t, content_hash(t), now);
                match res {
                    Err(m) => r matches Err(e) && e@ == m && final(store)@ == v1,
                    Ok(e) => r matches Ok(c) && entry_opt_view(c.entry) == e && final(store)@
                        == captured_store(v, t, now) && c.trimmed == v1.rows.len()
                        - final(store)@.rows.len(),
                }
            }
        }),
{
    let empty = CaptureResult { entry: None, trimmed: 0 };
    if capture_skipped(paused, &clipboard, last_written) {
        return Ok(empty);
    }
    let text = match clipboard {
        Some(t) => t,
        None => return Ok(empty),
    };
    let hash = hash_text(text.as_str());
    let entry = match upsert_entry(store, text.as_str(), hash.as_str(), now) {
        Ok(e) => e,
        Err(m) => return Err(m),
    };
    let cap = max_items(store);
    let trimmed = trim(store, cap);
    Ok(CaptureResult { entry, trimmed })
}

pub open spec fn limit_or_default(limit: Option<i64>) -> i64 {
    match limit {
        Some(l) => l,
        None => 200,
    }
}

/// The history list the panel shows: `query` and `limit` as in
/// [`crate::db::list_entries`], with 200 entries when no limit is given.
pub fn list_entries(store: &Store, query: Option<String>, limit: Option<i64>) -> (r: Vec<Entry>)
    requires
        store.wf(),
    ensures
        listing_ok(
            store@.rows,
            search_term(opt_view(query)),
            clamp_limit(limit_or_default(limit)),
            entry_views(r@),
        ),
{
    let l = match limit {
        Some(l) => l,
        None => 200,
    };
    match &query {
        Some(q) => crate::db::list_entries(store, Some(q.as_str()), l),
        None => crate::db::list_entries(store, None, l),
    }
}

/// Clear the history; pinned entries are spared unless `keep_pinned` is
/// `Some(false)`.
pub fn clear_history(store: &mut Store, keep_pinned: Option<bool>) -> (r: u64)
    requires
        old(store).wf(),
    ensures
        final(store).wf(),
        final(store)@ == with_rows(
            old(store)@,
            if keep_pinned != Some(false) {
                crate::db::pinned_rows(old(store)@.rows)
            } else {
                Seq::empty()
            },
        ),
        r == old(store)@.rows.len() - final(store)@.rows.len(),
{
    let keep = match keep_pinned {
        Some(k) => k,
        None => true,
    };
    crate::db::clear_history(store, keep)
}

/// The text to put on the clipboard for entry `id`, or the message shown
/// when the entry is gone.
pub fn paste_entry_text(store: &Store, id: i64) -> (r: Result<String, String>)
    requires
        store.wf(),
    ensures
        match r {
            Ok(t) => has_id(store@.rows, id) && t@ == store@.rows[index_of_id(
                store@.rows,
                id,
            )].entry.text,
            Err(m) => !has_id(store@.rows, id) && m@ == ENTRY_GONE@,
        },
{
    match get_entry(store, id) {
        Some(e) => Ok(e.text),
        None => Err(ENTRY_GONE.to_owned()),
    }
}

pub open spec fn wants_paste(v: StoreView, requested: Option<bool>) -> bool {
    match requested {
        Some(b) => b,
        None => setting_or(v, "auto_paste"@, "true"@) == "true"@,
    }
}

/// After entry `id` was put on the clipboard: the entry-gone message when
/// no entry has that id; else record the reuse at `now`,
/// then decide whether to synthesise Ctrl+V (`requested`, else the stored
/// auto-paste setting). `Ok(None)` means go on and paste; `Ok(Some(..))` is
/// the final answer when auto-paste is off.
pub fn paste_entry(store: &mut Store, id: i64, now: i64, requested: Option<bool>) -> (r: Result<
    Option<PasteOutcome>,
    String,
>)
    requires
        old(store).wf(),
    ensures
        final(store).wf(),
        ({
            let rows = old(store)@.rows;
            let i = index_of_id(rows, id);
            if !has_id(rows, id) {
                r matches Err(m) && m@ == ENTRY_GONE@ && final(store)@ == old(store)@
            } else if rows[i].entry.use_count == i64::MAX {
                r matches Err(m) && m@ == USE_COUNT_OVERFLOW@ && final(store)@ == old(store)@
            } else {
                &&& final(store)@ == with_rows(
                    old(store)@,
                    rows.update(i, with_entry(rows[i], touched(rows[i].entry, now))),
                )
                &&& if wants_paste(old(store)@, requested) {
                    r matches Ok(None)
                } else {
                    r matches Ok(Some(o)) && o.copied && !o.pasted && (o.reason matches Some(m)
                        && m@ == AUTO_PASTE_OFF@)
                }
            }
        }),
{
    match get_entry(store, id) {
        Some(_) => {},
        None => return Err(ENTRY_GONE.to_owned()),
    }
    match mark_used(store, id, now) {
        Ok(()) => {},
        Err(m) => return Err(m),
    }
    let wants = match requested {
        Some(b) => b,
        None => auto_paste(store),
    };
    if !wants {
        return Ok(Some(PasteOutcome { copied: true, pasted: false, reason: Some(AUTO_PASTE_OFF.to_owned()) }));
    }
    Ok(None)
}

/// The answer when no input session exists: copied only.
pub fn paste_without_session() -> (r: PasteOutcome)
    ensures
        r.copied,
        !r.pasted,
        r.reason matches Some(m) && m@ == NO_INPUT_PERMISSION@,
{
    PasteOutcome { copied: true, pasted: false, reason: Some(NO_INPUT_PERMISSION.to_owned()) }
}

/// The answer after the synthetic Ctrl+V was attempted with `result`.
pub fn paste_finished(result: Result<(), String>) -> (r: PasteOutcome)
    ensures
        r.copied,
        r.pasted == result is Ok,
        match result {
            Ok(()) => r.reason is None,
            Err(e) => r.reason matches Some(m) && m@ == KEYSTROKE_FAILED@ + e@,
        },
{
    match result {
        Ok(()) => PasteOutcome { copied: true, pasted: true, reason: None },
        Err(error) => {
            let mut m = KEYSTROKE_FAILED.to_owned();
            m.append(error.as_str());
            PasteOutcome { copied: true, pasted: false, reason: Some(m) }
        },
    }
}

/// The settings as the panel shows them, with the live portal state.
pub fn get_settings(store: &Store, hotkey_installed: bool, portal: PortalState) -> (r: Settings)
    ensures
        r.max_items == max_items_spec(store@),
        r.auto_paste == (setting_or(store@, "auto_paste"@, "true"@) == "true"@),
        r.hotkey_binding@ == setting_or(store@, KEY_HOTKEY@, DEFAULT_HOTKEY@),
        r.hotkey_installed == hotkey_installed,
        portal_state_view(r.portal) == portal_state_view(portal),
        !r.autostart_supported,
{
    let mut settings = Settings::load(store, hotkey_installed);
    settings.portal = portal;
    settings
}

/// The accelerator to register: the requested one when anything but
/// whitespace is in it (kept as given), else the stored one, else the
/// default (also when no store could be opened).
pub fn hotkey_to_install(requested: Option<String>, store: Option<&Store>) -> (r: String)
    ensures
        r@ == (match requested {
            Some(v) if crate::text::trim(v@).len() > 0 => v@,
            _ => match store {
                Some(s) => setting_or(s@, KEY_HOTKEY@, DEFAULT_HOTKEY@),
                None => DEFAULT_HOTKEY@,
            },
        }),
{
    if let Some(v) = &requested {
        let t = trim_str(v.as_str());
        if !t.as_str().is_empty() {
            return v.clone();
        }
    }
    match store {
        Some(s) => get_setting(s, KEY_HOTKEY, DEFAULT_HOTKEY),
        None => DEFAULT_HOTKEY.to_owned(),
    }
}

/// A capture that records text `t` files it under the lower-case hex
/// SHA-256 of exactly `t`'s UTF-8 bytes: afterwards the history holds a row
/// under that hash, and it is the most recently used one, so two texts that
/// differ in any character are told apart up to a SHA-256 collision.
pub proof fn lemma_capture_records_exact_hash(v: StoreView, t: Seq<char>, now: i64)
    requires
        v.valid(),
        forall|j: int| 0 <= j < v.rows.len() ==> #[trigger] v.rows[j].entry.last_used_at < now,
        upsert_spec(v, t, content_hash(t), now).0 is Ok,
    ensures
        exists|k: int|
            0 <= k < captured_store(v, t, now).rows.len() && (#[trigger] captured_store(v, t, now).rows[k]).hash
                == lower_hex(sha256_digest(text_bytes(t))),
{
    let h = lower_hex(sha256_digest(text_bytes(t)));
    let (res, v1) = upsert_spec(v, t, h, now);
    let rows = v.rows;
    let n = v1.rows;
    let k: int = if newest_has_hash(rows, h) {
        choose|i: int| is_newest(rows, i) && rows[i].hash == h
    } else if has_hash(rows, h) {
        let i = index_of_hash(rows, h);
        assert forall|j: int| 0 <= j < n.len() && j != i implies newer(n[i].entry, #[trigger] n[j].entry) by {
            assert(n[j] == rows[j]);
        }
        i
    } else {
        let k = rows.len() as int;
        assert forall|j: int| 0 <= j < n.len() && j != k implies newer(n[k].entry, #[trigger] n[j].entry) by {
            assert(n[j] == rows[j]);
        }
        k
    };
    assert(is_newest(n, k) && n[k].hash == h);
    lemma_trim_keeps_newest_row(n, max_items_spec(v1) as i64, k);
    let out = captured_store(v, t, now).rows;
    let m = choose|m: int| 0 <= m < out.len() && out[m] == n[k];
    assert(out[m].hash == h);
}

} // verus!
