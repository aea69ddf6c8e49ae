//! The panel's visibility state machine and the screen-edge monitor's
//! geometry. Every function here decides; the caller performs the window
//! commands it returns, holding one lock around the state.

use vstd::prelude::*;

verus! {

/// Delay between the "about to hide" notice and the physical hide, in ms.
pub const HIDE_DELAY_MS: u64 = 350;

/// Delay between showing the window and the "now visible" notice, in ms.
pub const SHOW_NOTICE_DELAY_MS: u64 = 20;

/// How often the edge monitor samples the cursor, in ms.
pub const EDGE_POLL_MS: u64 = 100;

/// How long the edge monitor sleeps while it is switched off, in ms.
pub const EDGE_IDLE_POLL_MS: u64 = 500;

/// How close to a monitor's right edge the cursor must come, in logical units.
pub const EDGE_THRESHOLD: i64 = 2;

/// The panel's width, in logical units.
pub const PANEL_WIDTH: i64 = 410;

/// Whether the panel is commanded visible, and if so whether the edge
/// monitor brought it up (and may take it down again).
#[derive(Clone, Copy, Debug, PartialEq, Eq, Structural)]
pub enum WindowState {
    Hidden,
    Visible { auto_hide: bool },
}

/// A window position in physical pixels.
#[derive(Clone, Copy, Debug, PartialEq, Eq, Structural)]
pub struct Position {
    pub x: i64,
    pub y: i64,
}

/// What the caller must do to the window after a transition.
#[derive(Clone, Copy, Debug, PartialEq, Eq, Structural)]
pub enum Transition {
    /// Nothing.
    Stay,
    /// Tell the UI the panel is about to hide; after `HIDE_DELAY_MS`, hide the
    /// window only if `should_hide_window` still holds.
    Hide,
    /// Move the window to `position` when there is one, show and focus it,
    /// and tell the UI it is visible after `SHOW_NOTICE_DELAY_MS`.
    Show { position: Option<Position> },
}

/// Hotkey or tray click: hides a visible panel, or shows a hidden one at
/// `placement` for good (no auto-hide).
pub fn toggle_main_window(state: &mut WindowState, placement: Option<Position>) -> (t: Transition)
    ensures
        *old(state) is Visible ==> *final(state) == WindowState::Hidden && t == Transition::Hide,
        *old(state) is Hidden ==> *final(state) == (WindowState::Visible { auto_hide: false })
            && t == (Transition::Show { position: placement }),
{
    match *state {
        WindowState::Visible { .. } => {
            *state = WindowState::Hidden;
            Transition::Hide
        },
        WindowState::Hidden => {
            *state = WindowState::Visible { auto_hide: false };
            Transition::Show { position: placement }
        },
    }
}

/// The cursor reached a monitor's right edge: a hidden panel is shown at
/// `placement` and will hide itself when the cursor leaves.
pub fn edge_entered(state: &mut WindowState, placement: Position) -> (t: Transition)
    ensures
        *old(state) is Hidden ==> *final(state) == (WindowState::Visible { auto_hide: true })
            && t == (Transition::Show { position: Some(placement) }),
        *old(state) is Visible ==> *final(state) == *old(state) && t == Transition::Stay,
{
    match *state {
        WindowState::Hidden => {
            *state = WindowState::Visible { auto_hide: true };
            Transition::Show { position: Some(placement) }
        },
        WindowState::Visible { .. } => Transition::Stay,
    }
}

/// The cursor moved well clear of the panel: only a panel that the edge
/// monitor brought up is hidden.
pub fn left_window_region(state: &mut WindowState) -> (t: Transition)
    ensures
        *old(state) == (WindowState::Visible { auto_hide: true }) ==> *final(state) == WindowState::Hidden
            && t == Transition::Hide,
        *old(state) != (WindowState::Visible { auto_hide: true }) ==> *final(state) == *old(state)
            && t == Transition::Stay,
{
    match *state {
        WindowState::Visible { auto_hide: true } => {
            *state = WindowState::Hidden;
            Transition::Hide
        },
        _ => Transition::Stay,
    }
}

/// The window system asked to close the panel: it is hidden, never closed.
pub fn close_requested(state: &mut WindowState) -> (t: Transition)
    ensures
        *final(state) == WindowState::Hidden,
        t == if *old(state) is Visible { Transition::Hide } else { Transition::Stay },
{
    match *state {
        WindowState::Visible { .. } => {
            *state = WindowState::Hidden;
            Transition::Hide
        },
        WindowState::Hidden => Transition::Stay,
    }
}

/// Sets whether the panel is commanded visible. A panel made visible this
/// way does not auto-hide; one that is already visible keeps its mode.
pub fn set_window_state(state: &mut WindowState, is_visible: bool)
    ensures
        !is_visible ==> *final(state) == WindowState::Hidden,
        is_visible && *old(state) is Hidden ==> *final(state) == (WindowState::Visible { auto_hide: false }),
        is_visible && *old(state) is Visible ==> *final(state) == *old(state),
{
    if !is_visible {
        *state = WindowState::Hidden;
    } else if *state == WindowState::Hidden {
        *state = WindowState::Visible { auto_hide: false };
    }
}

/// Whether a pending hide should still happen: the panel was not shown
/// again during the delay.
pub fn should_hide_window(state: &WindowState) -> (r: bool)
    ensures
        r == (*state is Hidden),
{
    *state == WindowState::Hidden
}

/// A monitor: origin and size in physical pixels, scale in percent
/// (logical = physical * 100 / scale).
#[derive(Clone, Copy, Debug, PartialEq, Eq, Structural)]
pub struct Monitor {
    pub x: i32,
    pub y: i32,
    pub width: u32,
    pub height: u32,
    pub scale_percent: u16,
}

/// Whether the logical point (`cx`, `cy`) lies on monitor `m`, edges included.
pub open spec fn contains(m: Monitor, cx: int, cy: int) -> bool {
    &&& m.scale_percent > 0
    &&& cx * m.scale_percent >= m.x * 100
    &&& cx * m.scale_percent <= (m.x + m.width) * 100
    &&& cy * m.scale_percent >= m.y * 100
    &&& cy * m.scale_percent <= (m.y + m.height) * 100
}

/// Whether logical x `cx` is within `EDGE_THRESHOLD` of `m`'s right edge.
pub open spec fn near_right_edge(m: Monitor, cx: int) -> bool {
    cx * m.scale_percent >= (m.x + m.width) * 100 - EDGE_THRESHOLD * m.scale_percent
}

/// Whether logical x `cx` is farther left than a panel's width from `m`'s
/// right edge.
pub open spec fn clear_of_panel(m: Monitor, cx: int) -> bool {
    cx * m.scale_percent < (m.x + m.width) * 100 - PANEL_WIDTH * m.scale_percent
}

/// The panel's place on `m`: top-aligned, right-aligned, in physical pixels.
pub open spec fn placement_spec(m: Monitor) -> Position {
    Position { x: (m.x + m.width - PANEL_WIDTH * m.scale_percent / 100) as i64, y: m.y as i64 }
}

fn contains_point(m: &Monitor, cx: i32, cy: i32) -> (r: bool)
    ensures
        r == contains(*m, cx as int, cy as int),
{
    let s = m.scale_percent as i64;
    if s == 0 {
        return false;
    }
    proof {
        assert(-0x8000_0000 * 0x10000 <= cx * s <= 0x8000_0000 * 0x10000) by (nonlinear_arith)
            requires
                -0x8000_0000 <= cx < 0x8000_0000,
                0 < s < 0x10000,
        ;
        assert(-0x8000_0000 * 0x10000 <= cy * s <= 0x8000_0000 * 0x10000) by (nonlinear_arith)
            requires
                -0x8000_0000 <= cy < 0x8000_0000,
                0 < s < 0x10000,
        ;
    }
    let px = cx as i64 * s;
    let py = cy as i64 * s;
    px >= m.x as i64 * 100 && px <= (m.x as i64 + m.width as i64) * 100 && py >= m.y as i64 * 100
        && py <= (m.y as i64 + m.height as i64) * 100
}

/// The first monitor that holds the logical point (`cx`, `cy`).
pub fn monitor_at(monitors: &Vec<Monitor>, cx: i32, cy: i32) -> (r: Option<usize>)
    ensures
        match r {
            Some(i) => i < monitors@.len() && contains(monitors@[i as int], cx as int, cy as int)
                && forall|j: int| 0 <= j < i ==> !contains(#[trigger] monitors@[j], cx as int, cy as int),
            None => forall|j: int| 0 <= j < monitors@.len() ==> !contains(#[trigger] monitors@[j], cx as int, cy as int),
        },
{
    let mut i: usize = 0;
    while i < monitors.len()
        invariant
            i <= monitors@.len(),
            forall|j: int| 0 <= j < i ==> !contains(#[trigger] monitors@[j], cx as int, cy as int),
        decreases monitors@.len() - i,
    {
        if contains_point(&monitors[i], cx, cy) {
            return Some(i);
        }
        i += 1;
    }
    None
}

/// The panel's place on monitor `m`.
pub fn placement(m: &Monitor) -> (r: Position)
    ensures
        r == placement_spec(*m),
{
    let w = PANEL_WIDTH * m.scale_percent as i64 / 100;
    Position { x: m.x as i64 + m.width as i64 - w, y: m.y as i64 }
}

/// Where the hidden panel waits at startup: on the first monitor.
pub fn startup_position(monitors: &Vec<Monitor>) -> (r: Option<Position>)
    ensures
        monitors@.len() == 0 ==> r is None,
        monitors@.len() > 0 ==> r == Some(placement_spec(monitors@[0])),
{
    if monitors.len() == 0 {
        None
    } else {
        Some(placement(&monitors[0]))
    }
}

/// Whether the edge monitor acts; it is switched by a setting.
pub struct EdgeMonitor {
    pub enabled: bool,
}

/// The setting that switches the edge monitor.
pub const MOUSE_EDGE_SETTING: &'static str = "mouse_edge_enabled";

/// Whether a value of the edge setting leaves the monitor on: only
/// `"false"` switches it off, and it is on when the setting is absent.
pub open spec fn edge_setting_enabled(value: Option<Seq<char>>) -> bool {
    match value {
        Some(v) => v != seq!['f', 'a', 'l', 's', 'e'],
        None => true,
    }
}

impl EdgeMonitor {
    /// The monitor as the stored setting value configures it.
    pub fn from_setting(value: &Option<String>) -> (r: EdgeMonitor)
        ensures
            r.enabled == edge_setting_enabled(match value { Some(v) => Some(v@), None => None }),
    {
        match value {
            Some(v) => {
                let off = String::from_str("false");
                proof {
                    reveal_strlit("false");
                    assert(off@ =~= seq!['f', 'a', 'l', 's', 'e']);
                }
                EdgeMonitor { enabled: *v != off }
            },
            None => EdgeMonitor { enabled: true },
        }
    }
}

/// Switches the edge monitor off; its ticks then do nothing.
pub fn stop_mouse_edge_monitor(monitor: &mut EdgeMonitor)
    ensures
        !final(monitor).enabled,
{
    monitor.enabled = false;
}

/// One sample of the edge monitor: what the window must do, and how long to
/// sleep before the next sample.
#[derive(Clone, Copy, Debug, PartialEq, Eq, Structural)]
pub struct EdgeTick {
    pub transition: Transition,
    pub sleep_ms: u64,
}

/// Decides one edge-monitor sample from the cursor's logical position (none
/// when it could not be read) and the monitors.
pub fn edge_tick(
    monitor: &EdgeMonitor,
    state: &mut WindowState,
    cursor: Option<(i32, i32)>,
    monitors: &Vec<Monitor>,
) -> (r: EdgeTick)
    ensures
        !monitor.enabled ==> r == (EdgeTick { transition: Transition::Stay, sleep_ms: EDGE_IDLE_POLL_MS })
            && *final(state) == *old(state),
        monitor.enabled ==> r.sleep_ms == EDGE_POLL_MS,
        monitor.enabled ==> match cursor {
            None => r.transition == Transition::Stay && *final(state) == *old(state),
            Some((cx, cy)) => {
                if exists|j: int| 0 <= j < monitors@.len() && contains(#[trigger] monitors@[j], cx as int, cy as int) {
                    exists|i: int| {
                        &&& 0 <= i < monitors@.len()
                        &&& contains(monitors@[i], cx as int, cy as int)
                        &&& forall|j: int| 0 <= j < i ==> !contains(#[trigger] monitors@[j], cx as int, cy as int)
                        &&& if near_right_edge(monitors@[i], cx as int) && *old(state) is Hidden {
                            *final(state) == (WindowState::Visible { auto_hide: true })
                                && r.transition == (Transition::Show { position: Some(placement_spec(monitors@[i])) })
                        } else if clear_of_panel(monitors@[i], cx as int) && *old(state) == (WindowState::Visible { auto_hide: true }) {
                            *final(state) == WindowState::Hidden && r.transition == Transition::Hide
                        } else {
                            *final(state) == *old(state) && r.transition == Transition::Stay
                        }
                    }
                } else {
                    r.transition == Transition::Stay && *final(state) == *old(state)
                }
            },
        },
{
    if !monitor.enabled {
        return EdgeTick { transition: Transition::Stay, sleep_ms: EDGE_IDLE_POLL_MS };
    }
    let (cx, cy) = match cursor {
        Some(c) => c,
        None => return EdgeTick { transition: Transition::Stay, sleep_ms: EDGE_POLL_MS },
    };
    let i = match monitor_at(monitors, cx, cy) {
        Some(i) => i,
        None => return EdgeTick { transition: Transition::Stay, sleep_ms: EDGE_POLL_MS },
    };
    let m = monitors[i];
    let s = m.scale_percent as i64;
    proof {
        assert(-0x8000_0000 * 0x10000 <= cx * s <= 0x8000_0000 * 0x10000) by (nonlinear_arith)
            requires
                -0x8000_0000 <= cx < 0x8000_0000,
                0 < s < 0x10000,
        ;
    }
    let px = cx as i64 * s;
    let right = (m.x as i64 + m.width as i64) * 100;
    let transition = if px >= right - EDGE_THRESHOLD * s && *state == WindowState::Hidden {
        edge_entered(state, placement(&m))
    } else if px < right - PANEL_WIDTH * s {
        left_window_region(state)
    } else {
        Transition::Stay
    };
    EdgeTick { transition, sleep_ms: EDGE_POLL_MS }
}

} // verus!
