//! The tray menu: which command each item runs, and the pause item's title.

use vstd::prelude::*;
use crate::text::same_text;

verus! {

/// What a tray menu item does.
#[derive(Debug, PartialEq, Eq, Structural)]
pub enum TrayAction {
    ToggleMain,
    TogglePause,
    ClearHistory,
    OpenSettings,
    Quit,
    Ignore,
}

/// The action of the menu item with the given id.
pub open spec fn tray_action_spec(id: Seq<char>) -> TrayAction {
    if id == "show"@ {
        TrayAction::ToggleMain
    } else if id == "pause"@ {
        TrayAction::TogglePause
    } else if id == "clear"@ {
        TrayAction::ClearHistory
    } else if id == "settings"@ {
        TrayAction::OpenSettings
    } else if id == "quit"@ {
        TrayAction::Quit
    } else {
        TrayAction::Ignore
    }
}

/// The action of the menu item with the given id.
pub fn tray_action(id: &str) -> (r: TrayAction)
    ensures
        r == tray_action_spec(id@),
{
    if same_text(id, "show") {
        TrayAction::ToggleMain
    } else if same_text(id, "pause") {
        TrayAction::TogglePause
    } else if same_text(id, "clear") {
        TrayAction::ClearHistory
    } else if same_text(id, "settings") {
        TrayAction::OpenSettings
    } else if same_text(id, "quit") {
        TrayAction::Quit
    } else {
        TrayAction::Ignore
    }
}

/// The title of the pause item for a recording state: it offers the opposite.
pub open spec fn pause_title(paused: bool) -> Seq<char> {
    if paused {
        "继续记录"@
    } else {
        "暂停记录"@
    }
}

/// The recording state and the pause item's title after one pick of the item.
pub open spec fn pause_step(paused: bool) -> (bool, Seq<char>) {
    (!paused, pause_title(!paused))
}

/// The recording state after `n` picks of the pause item, starting from `paused`.
pub open spec fn paused_after(paused: bool, n: nat) -> bool
    decreases n,
{
    if n == 0 {
        paused
    } else {
        pause_step(paused_after(paused, (n - 1) as nat)).0
    }
}

/// The pause item's title after `n >= 1` picks, starting from `paused`.
pub open spec fn title_after(paused: bool, n: nat) -> Seq<char>
    recommends
        n >= 1,
{
    pause_step(paused_after(paused, (n - 1) as nat)).1
}

/// The title of the pause item: it offers the opposite of the current state.
pub fn pause_label(paused: bool) -> (r: &'static str)
    ensures
        r@ == pause_title(paused),
{
    if paused {
        "继续记录"
    } else {
        "暂停记录"
    }
}

/// The pause item flips recording; returns the new state and the item's title.
pub fn toggle_pause(paused: bool) -> (r: (bool, &'static str))
    ensures
        (r.0, r.1@) == pause_step(paused),
{
    let now_paused = !paused;
    (now_paused, pause_label(now_paused))
}

/// Picking the pause item `n` times in a row: recording is paused exactly
/// when it started paused and `n` is even, or started running and `n` is
/// odd; after at least one pick the item's title offers the opposite of the
/// state it leaves.
pub proof fn law_pause_picks(paused: bool, n: nat)
    ensures
        paused_after(paused, n) == (if n % 2 == 1 {
            !paused
        } else {
            paused
        }),
        n >= 1 ==> title_after(paused, n) == pause_title(paused_after(paused, n)),
    decreases n,
{
    if n > 0 {
        law_pause_picks(paused, (n - 1) as nat);
    }
}

} // verus!
