//! ClipStack: a keyboard-first clipboard history.
//!
//! The library holds the history store and every rule that decides what the
//! application shows, keeps, writes back to the clipboard and persists.
//! The desktop shell (windows, tray, hot keys, the SQLite file) lives in `app/`.

pub mod text;
pub mod db;
pub mod commands;
pub mod window;
pub mod tray;
pub mod appicon;


