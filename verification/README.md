# xinlan_clip

Clipboard history for a Linux desktop (GNOME 46 on Wayland), written as a
Verus-verified library with a thin Tauri shell around it.

- `src/` — the verified library:
  - `db` — the history store: entries with content hashes, settings, and the
    rules for recording a copy (deduplication by hash, reuse only after
    something else was copied), listing (pinned first, then most recently
    used; literal, case-insensitive search), pinning, deleting, clearing
    and trimming to the retention cap, and what a save has to write. Laws
    about these operations are proved at the end of the file.
  - `like` — case folding, the `LIKE ... ESCAPE '\'` matcher used by search,
    the escaping of search text, and the proof that an escaped search is a
    plain substring test.
  - `clipboard` — SHA-256 fingerprints of clipboard text and the guard
    against recording our own writes.
  - `settings` — loading settings and applying a patch.
  - `gnome_hotkey` — reading and writing the GVariant list of custom
    shortcuts and planning the `gsettings` calls that (un)register the panel's
    shortcut.
  - `portal` — decisions around the RemoteDesktop portal session.
  - `commands` — the logic of the commands the panel calls.
  - `text` — character-level helpers (trimming, integer text).
- `app/` — the Tauri application: windows, tray, the clipboard, the SQLite
  file, `gsettings` and D-Bus.
- `tests/` — tests of the library.
