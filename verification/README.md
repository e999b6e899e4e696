# ClipStack

A keyboard-first clipboard history. This crate is its core as a verified
library; the desktop shell (Tauri windows, tray, global shortcut, the SQLite
file, AppKit calls) is in `app/`.

- `src/db.rs` — the history store: records keyed by content hash, listing
  (pinned first, newest first, `LIKE` search, limit), pinning, deletion,
  clearing, pruning to a capacity, key/value settings.
- `src/commands.rs` — what each command decides: listing limit from the
  stored capacity, the clipboard payload of a record, status, settings,
  shortcut changes, the ignore list (JSON via `serde_json`), source apps.
- `src/text.rs` — `LIKE` matching, blank text, decimal `i64` parse/format.
- `src/window.rs` — when the panel hides on focus loss; the clock.
- `src/tray.rs` — tray menu dispatch.
- `src/appicon.rs` — source-app resolution, PNG `data:` URLs (`base64`).

Laws are stated as public proof functions next to the code they concern
(`law_*`).
