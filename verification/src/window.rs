//! When the main panel shows and hides.
//!
//! The panel hides when it loses focus, except within a grace period after
//! it was shown and except when it never had focus since then: switching
//! into a full-screen space sends such spurious focus losses.

use vstd::prelude::*;

verus! {

/// Focus losses this soon (in milliseconds) after showing the panel are ignored.
pub const FOCUS_GRACE_MS: i64 = 400;

/// What the shell does to the main panel.
#[derive(Debug, PartialEq, Eq, Structural)]
pub enum WindowAction {
    Nothing,
    Hide,
    Show,
}

/// When the panel was last shown, and whether it has had focus since.
#[derive(Debug, PartialEq, Eq, Structural)]
pub struct FocusGuard {
    pub last_shown_at: i64,
    pub had_focus: bool,
}

/// The guard and action after a focus change at time `now`.
pub open spec fn focus_step(g: FocusGuard, focused: bool, now: i64) -> (FocusGuard, WindowAction) {
    if focused {
        (FocusGuard { last_shown_at: g.last_shown_at, had_focus: true }, WindowAction::Nothing)
    } else if now - g.last_shown_at < FOCUS_GRACE_MS {
        (g, WindowAction::Nothing)
    } else if !g.had_focus {
        (g, WindowAction::Nothing)
    } else {
        (FocusGuard { last_shown_at: g.last_shown_at, had_focus: false }, WindowAction::Hide)
    }
}

/// The guard and action after the show/hide shortcut at time `now`.
pub open spec fn toggle_step(g: FocusGuard, visible: bool, now: i64) -> (FocusGuard, WindowAction) {
    if visible {
        (g, WindowAction::Hide)
    } else {
        (FocusGuard { last_shown_at: now, had_focus: false }, WindowAction::Show)
    }
}

impl FocusGuard {
    /// The state at start: never shown, never focused.
    pub fn new() -> (g: FocusGuard)
        ensures
            g.last_shown_at == 0,
            !g.had_focus,
    {
        FocusGuard { last_shown_at: 0, had_focus: false }
    }

    /// Handles a focus change of the panel at time `now` (milliseconds).
    pub fn on_focus_changed(&mut self, focused: bool, now: i64) -> (a: WindowAction)
        requires
            focused || i64::MIN <= now - old(self).last_shown_at <= i64::MAX,
        ensures
            (*final(self), a) == focus_step(*old(self), focused, now),
    {
        if focused {
            self.had_focus = true;
            return WindowAction::Nothing;
        }
        if now - self.last_shown_at < FOCUS_GRACE_MS {
            return WindowAction::Nothing;
        }
        if !self.had_focus {
            return WindowAction::Nothing;
        }
        self.had_focus = false;
        WindowAction::Hide
    }

    /// Handles the show/hide shortcut at time `now`: a visible panel hides,
    /// a hidden one shows and the grace period starts.
    pub fn on_toggle(&mut self, visible: bool, now: i64) -> (a: WindowAction)
        ensures
            (*final(self), a) == toggle_step(*old(self), visible, now),
    {
        if visible {
            return WindowAction::Hide;
        }
        self.last_shown_at = now;
        self.had_focus = false;
        WindowAction::Show
    }
}

/// A focus loss within the grace period after showing leaves the panel up.
pub proof fn law_grace_period(g: FocusGuard, shown_at: i64, now: i64)
    requires
        now - shown_at < FOCUS_GRACE_MS,
    ensures
        ({
            let (g1, _) = toggle_step(g, false, shown_at);
            focus_step(g1, false, now) == (g1, WindowAction::Nothing)
        }),
{
}

/// Once shown, the panel does not hide on a focus loss until it has had focus.
pub proof fn law_no_hide_without_focus(g: FocusGuard, shown_at: i64, now: i64)
    ensures
        ({
            let (g1, _) = toggle_step(g, false, shown_at);
            focus_step(g1, false, now).1 == WindowAction::Nothing
        }),
{
}

/// Shown, then focused, then unfocused after the grace period: the panel hides,
/// and the next focus loss (without focus in between) does nothing.
pub proof fn law_hide_after_focus(g: FocusGuard, shown_at: i64, focus_at: i64, lost_at: i64, later: i64)
    requires
        lost_at - shown_at >= FOCUS_GRACE_MS,
    ensures
        ({
            let (g1, _) = toggle_step(g, false, shown_at);
            let (g2, _) = focus_step(g1, true, focus_at);
            let (g3, a3) = focus_step(g2, false, lost_at);
            &&& a3 == WindowAction::Hide
            &&& focus_step(g3, false, later).1 == WindowAction::Nothing
        }),
{
}

/// `SystemTime::now`: the system clock's current reading. It depends on
/// the clock, so the contract promises nothing about it.
#[verifier::external_body]
fn system_now() -> (r: std::time::SystemTime) {
    std::time::SystemTime::now()
}

/// `SystemTime::duration_since(UNIX_EPOCH)`: the time since the Unix
/// epoch, or an error for a time before it. It depends on the clock
/// reading, so the contract promises nothing about it.
#[verifier::external_body]
fn duration_since_epoch(t: &std::time::SystemTime) -> (r: Result<
    std::time::Duration,
    std::time::SystemTimeError,
>) {
    t.duration_since(std::time::UNIX_EPOCH)
}

/// `Duration::as_millis`: the whole milliseconds of a duration. A duration
/// is opaque here, so the contract promises nothing about the number.
#[verifier::external_body]
fn duration_millis(d: &std::time::Duration) -> (r: u128) {
    d.as_millis()
}

/// The error of a clock reading before the epoch (`std::time::SystemTimeError`).
#[verifier::external_type_specification]
#[verifier::external_body]
pub struct ExSystemTimeError(std::time::SystemTimeError);

/// The system clock (`std::time::SystemTime`).
#[verifier::external_type_specification]
#[verifier::external_body]
pub struct ExSystemTime(std::time::SystemTime);

/// A clock reading as the timestamps are kept: truncated to `i64`, and 0
/// when the clock is before the epoch.
pub fn millis_as_i64(ms: Option<u128>) -> (r: i64)
    ensures
        r == match ms {
            Some(m) => m as i64,
            None => 0i64,
        },
{
    match ms {
        Some(m) => #[verifier::truncate] (m as i64),
        None => 0,
    }
}

/// The current time in milliseconds since the Unix epoch (0 when the
/// clock is before the epoch).
pub fn now_millis() -> i64 {
    let t = system_now();
    let ms = match duration_since_epoch(&t) {
        Ok(d) => Some(duration_millis(&d)),
        Err(_) => None,
    };
    millis_as_i64(ms)
}

} // verus!
