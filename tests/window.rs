use pastesheet::window::{
    close_requested, edge_entered, edge_tick, left_window_region, monitor_at, placement,
    set_window_state, should_hide_window, startup_position, stop_mouse_edge_monitor,
    toggle_main_window, EdgeMonitor, Monitor, Position, Transition, WindowState, EDGE_IDLE_POLL_MS,
    EDGE_POLL_MS,
};

fn monitor(x: i32, width: u32, scale: u16) -> Monitor {
    Monitor { x, y: 0, width, height: 1000, scale_percent: scale }
}

#[test]
fn edge_show_then_toggle_then_leave() {
    let mut state = WindowState::Hidden;
    let at = Position { x: 1510, y: 0 };
    assert_eq!(edge_entered(&mut state, at), Transition::Show { position: Some(at) });
    assert_eq!(state, WindowState::Visible { auto_hide: true });
    assert_eq!(toggle_main_window(&mut state, None), Transition::Hide);
    assert_eq!(state, WindowState::Hidden);
    assert_eq!(left_window_region(&mut state), Transition::Stay);
    assert_eq!(state, WindowState::Hidden);
}

#[test]
fn toggle_shows_for_good_and_edge_leave_does_not_hide_it() {
    let mut state = WindowState::Hidden;
    let at = Some(Position { x: 10, y: 20 });
    assert_eq!(toggle_main_window(&mut state, at), Transition::Show { position: at });
    assert_eq!(state, WindowState::Visible { auto_hide: false });
    assert_eq!(left_window_region(&mut state), Transition::Stay);
    assert_eq!(edge_entered(&mut state, Position { x: 0, y: 0 }), Transition::Stay);
    assert_eq!(state, WindowState::Visible { auto_hide: false });
}

#[test]
fn close_request_only_hides() {
    let mut state = WindowState::Visible { auto_hide: false };
    assert_eq!(close_requested(&mut state), Transition::Hide);
    assert_eq!(state, WindowState::Hidden);
    assert_eq!(close_requested(&mut state), Transition::Stay);
}

#[test]
fn pending_hide_is_cancelled_by_a_show() {
    let mut state = WindowState::Visible { auto_hide: false };
    toggle_main_window(&mut state, None);
    assert!(should_hide_window(&state));
    toggle_main_window(&mut state, None);
    assert!(!should_hide_window(&state));
}

#[test]
fn set_window_state_sets_the_flag() {
    let mut state = WindowState::Hidden;
    set_window_state(&mut state, true);
    assert_eq!(state, WindowState::Visible { auto_hide: false });
    let mut auto = WindowState::Visible { auto_hide: true };
    set_window_state(&mut auto, true);
    assert_eq!(auto, WindowState::Visible { auto_hide: true });
    set_window_state(&mut auto, false);
    assert_eq!(auto, WindowState::Hidden);
}

#[test]
fn monitor_lookup_uses_logical_coordinates() {
    let monitors = vec![monitor(0, 3840, 200), monitor(3840, 1920, 100)];
    assert_eq!(monitor_at(&monitors, 1000, 100), Some(0));
    assert_eq!(monitor_at(&monitors, 1920, 100), Some(0));
    assert_eq!(monitor_at(&monitors, 2000, 100), None);
    assert_eq!(monitor_at(&monitors, 3900, 100), Some(1));
    assert_eq!(monitor_at(&monitors, 3900, 2000), None);
    assert_eq!(monitor_at(&vec![monitor(0, 100, 0)], 0, 0), None);
}

#[test]
fn placement_is_right_and_top_aligned() {
    assert_eq!(placement(&monitor(0, 1920, 100)), Position { x: 1510, y: 0 });
    assert_eq!(placement(&monitor(0, 3840, 200)), Position { x: 3020, y: 0 });
    assert_eq!(placement(&monitor(1920, 1920, 150)), Position { x: 3225, y: 0 });
    assert_eq!(startup_position(&vec![]), None);
    assert_eq!(startup_position(&vec![monitor(0, 1920, 100)]), Some(Position { x: 1510, y: 0 }));
}

#[test]
fn edge_tick_shows_and_hides() {
    let monitors = vec![monitor(0, 1920, 100)];
    let on = EdgeMonitor { enabled: true };
    let mut state = WindowState::Hidden;
    let t = edge_tick(&on, &mut state, Some((1919, 10)), &monitors);
    assert_eq!(t.transition, Transition::Show { position: Some(Position { x: 1510, y: 0 }) });
    assert_eq!(t.sleep_ms, EDGE_POLL_MS);
    assert_eq!(state, WindowState::Visible { auto_hide: true });
    let t = edge_tick(&on, &mut state, Some((1600, 10)), &monitors);
    assert_eq!(t.transition, Transition::Stay);
    let t = edge_tick(&on, &mut state, Some((1000, 10)), &monitors);
    assert_eq!(t.transition, Transition::Hide);
    assert_eq!(state, WindowState::Hidden);
}

#[test]
fn edge_tick_idles_when_disabled_or_off_screen() {
    let monitors = vec![monitor(0, 1920, 100)];
    let mut mon = EdgeMonitor { enabled: true };
    let mut state = WindowState::Hidden;
    let t = edge_tick(&mon, &mut state, None, &monitors);
    assert_eq!(t.transition, Transition::Stay);
    let t = edge_tick(&mon, &mut state, Some((5000, 10)), &monitors);
    assert_eq!(t.transition, Transition::Stay);
    stop_mouse_edge_monitor(&mut mon);
    let t = edge_tick(&mon, &mut state, Some((1919, 10)), &monitors);
    assert_eq!(t.transition, Transition::Stay);
    assert_eq!(t.sleep_ms, EDGE_IDLE_POLL_MS);
    assert_eq!(state, WindowState::Hidden);
}

#[test]
fn edge_setting_switches_the_monitor() {
    assert!(EdgeMonitor::from_setting(&None).enabled);
    assert!(EdgeMonitor::from_setting(&Some("true".to_string())).enabled);
    assert!(!EdgeMonitor::from_setting(&Some("false".to_string())).enabled);
}
