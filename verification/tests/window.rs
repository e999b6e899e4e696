use clipstack::tray::{pause_label, toggle_pause, tray_action, TrayAction};
use clipstack::window::{millis_as_i64, now_millis, FocusGuard, WindowAction};

#[test]
fn focus_loss_in_grace_period_is_ignored() {
    let mut g = FocusGuard::new();
    assert_eq!(g.on_toggle(false, 1_000), WindowAction::Show);
    assert_eq!(g.on_focus_changed(true, 1_100), WindowAction::Nothing);
    assert_eq!(g.on_focus_changed(false, 1_399), WindowAction::Nothing);
    assert!(g.had_focus);
    assert_eq!(g.on_focus_changed(false, 1_400), WindowAction::Hide);
    assert!(!g.had_focus);
}

#[test]
fn focus_loss_without_focus_is_ignored() {
    let mut g = FocusGuard::new();
    assert_eq!(g.on_toggle(false, 0), WindowAction::Show);
    assert_eq!(g.on_focus_changed(false, 5_000), WindowAction::Nothing);
    assert_eq!(g.on_focus_changed(true, 5_001), WindowAction::Nothing);
    assert_eq!(g.on_focus_changed(false, 5_002), WindowAction::Hide);
    assert_eq!(g.on_focus_changed(false, 9_000), WindowAction::Nothing);
}

#[test]
fn toggle_hides_visible_panel() {
    let mut g = FocusGuard { last_shown_at: 7, had_focus: true };
    assert_eq!(g.on_toggle(true, 100), WindowAction::Hide);
    assert_eq!(g, FocusGuard { last_shown_at: 7, had_focus: true });
    assert_eq!(g.on_toggle(false, 100), WindowAction::Show);
    assert_eq!(g, FocusGuard { last_shown_at: 100, had_focus: false });
}

#[test]
fn clock_readings() {
    assert_eq!(millis_as_i64(None), 0);
    assert_eq!(millis_as_i64(Some(1_700_000_000_000)), 1_700_000_000_000);
    assert_eq!(millis_as_i64(Some(u128::from(u64::MAX))), -1);
    assert!(now_millis() > 1_600_000_000_000);
}

#[test]
fn tray_items() {
    assert_eq!(tray_action("show"), TrayAction::ToggleMain);
    assert_eq!(tray_action("pause"), TrayAction::TogglePause);
    assert_eq!(tray_action("clear"), TrayAction::ClearHistory);
    assert_eq!(tray_action("settings"), TrayAction::OpenSettings);
    assert_eq!(tray_action("quit"), TrayAction::Quit);
    assert_eq!(tray_action("other"), TrayAction::Ignore);
    assert_eq!(pause_label(true), "继续记录");
    assert_eq!(pause_label(false), "暂停记录");
    assert_eq!(toggle_pause(false), (true, "继续记录"));
    assert_eq!(toggle_pause(true), (false, "暂停记录"));
}

#[test]
fn pause_picks_alternate() {
    let mut paused = false;
    for n in 1..=7u32 {
        let (now, label) = toggle_pause(paused);
        paused = now;
        assert_eq!(paused, n % 2 == 1);
        assert_eq!(label, if paused { "继续记录" } else { "暂停记录" });
    }
}
