//! The game window's settings as the engine tracks them, and the requests
//! that changing them sends to the window system.
//!
//! The window itself (and the monitor it stands on) belongs to the caller:
//! each operation here updates the tracked state and says what the window
//! has to do, and the geometry helpers take the monitor's and the window's
//! measures as plain values.
use vstd::prelude::*;

verus! {

/// The tracked window settings.
#[derive(Debug)]
pub struct WindowState {
    pub title: String,
    pub fullscreen: bool,
    pub size: (u32, u32),
}

impl Default for WindowState {
    fn default() -> (r: Self)
        ensures
            r.title@ == "Runa Game"@,
            !r.fullscreen,
            r.size == (1280u32, 720u32),
    {
        WindowState { title: "Runa Game".to_string(), fullscreen: false, size: (1280, 720) }
    }
}

/// The application that opens the window and drives a world frame by
/// frame; the event loop that does so belongs to the program around the
/// library.
pub struct RunaApp {}

/// A marker for the state a game keeps between frames.
pub trait GameState {}

/// The window's start-up configuration.
#[derive(Debug)]
pub struct RunaWindowConfig {
    pub title: String,
    pub width: u32,
    pub height: u32,
    pub fullscreen: bool,
    pub vsync: bool,
    pub show_fps_in_title: bool,
    pub window_icon: Option<String>,
}

impl Default for RunaWindowConfig {
    fn default() -> (r: Self)
        ensures
            r.title@ == "Runa Game"@,
            r.width == 1280,
            r.height == 720,
            !r.fullscreen,
            r.vsync,
            !r.show_fps_in_title,
            r.window_icon is None,
    {
        RunaWindowConfig {
            title: "Runa Game".to_string(),
            width: 1280,
            height: 720,
            fullscreen: false,
            vsync: true,
            show_fps_in_title: false,
            window_icon: None,
        }
    }
}

/// What the window has to do.
#[derive(Debug, PartialEq, Eq)]
pub enum WindowRequest {
    SetTitle(String),
    /// Borderless fullscreen on the current monitor, or windowed.
    SetFullscreen(bool),
    SetSize(u32, u32),
    SetPosition(i32, i32),
    ShowCursor(bool),
    /// Lock the cursor to the window, or free it.
    LockCursor(bool),
}

/// Sets every tracked setting at once.
pub fn initialize_window_state(state: &mut WindowState, title: String, fullscreen: bool, size: (u32, u32))
    ensures
        final(state).title@ == title@,
        final(state).fullscreen == fullscreen,
        final(state).size == size,
{
    state.title = title;
    state.fullscreen = fullscreen;
    state.size = size;
}

pub fn window_title(state: &WindowState) -> (r: String)
    ensures
        r@ == state.title@,
{
    state.title.clone()
}

pub fn is_fullscreen(state: &WindowState) -> (r: bool)
    ensures
        r == state.fullscreen,
{
    state.fullscreen
}

pub fn window_size(state: &WindowState) -> (r: (u32, u32))
    ensures
        r == state.size,
{
    state.size
}

pub fn set_window_title(state: &mut WindowState, title: String) -> (r: WindowRequest)
    ensures
        final(state).title@ == title@,
        final(state).fullscreen == old(state).fullscreen,
        final(state).size == old(state).size,
        r matches WindowRequest::SetTitle(t) && t@ == title@,
{
    let request = WindowRequest::SetTitle(title.clone());
    state.title = title;
    request
}

pub fn set_fullscreen(state: &mut WindowState, fullscreen: bool) -> (r: WindowRequest)
    ensures
        final(state).fullscreen == fullscreen,
        final(state).title@ == old(state).title@,
        final(state).size == old(state).size,
        r == WindowRequest::SetFullscreen(fullscreen),
{
    state.fullscreen = fullscreen;
    WindowRequest::SetFullscreen(fullscreen)
}

/// Switches between fullscreen and windowed.
pub fn toggle_fullscreen(state: &mut WindowState) -> (r: WindowRequest)
    ensures
        final(state).fullscreen == !old(state).fullscreen,
        final(state).title@ == old(state).title@,
        final(state).size == old(state).size,
        r == WindowRequest::SetFullscreen(!old(state).fullscreen),
{
    let current = state.fullscreen;
    set_fullscreen(state, !current)
}

/// Sets the size, each side at least 1.
pub fn set_window_size(state: &mut WindowState, width: u32, height: u32) -> (r: WindowRequest)
    ensures
        final(state).size == (if width >= 1 { width } else { 1u32 }, if height >= 1 { height } else { 1u32 }),
        final(state).title@ == old(state).title@,
        final(state).fullscreen == old(state).fullscreen,
        r == WindowRequest::SetSize(final(state).size.0, final(state).size.1),
{
    let w = if width >= 1 { width } else { 1 };
    let h = if height >= 1 { height } else { 1 };
    state.size = (w, h);
    WindowRequest::SetSize(w, h)
}

pub fn set_window_position(x: i32, y: i32) -> (r: WindowRequest)
    ensures
        r == WindowRequest::SetPosition(x, y),
{
    WindowRequest::SetPosition(x, y)
}

/// `a + b`, held to the range of `i32`.
pub open spec fn saturating_i32(v: int) -> i32 {
    if v > i32::MAX {
        i32::MAX
    } else if v < i32::MIN {
        i32::MIN
    } else {
        v as i32
    }
}

/// `a / 2`, rounded toward zero.
pub open spec fn half_toward_zero(a: int) -> int {
    if a >= 0 {
        a / 2
    } else {
        -((-a) / 2)
    }
}

fn add_saturating(a: i32, b: i64) -> (r: i32)
    requires
        -0x1_0000_0000 <= b <= 0x1_0000_0000,
    ensures
        r == saturating_i32(a + b),
{
    let s: i64 = a as i64 + b;
    if s > i32::MAX as i64 {
        i32::MAX
    } else if s < i32::MIN as i64 {
        i32::MIN
    } else {
        s as i32
    }
}

/// Moves the window by `(dx, dy)` from `position`, each coordinate held to
/// the range of `i32`.
pub fn move_window_by(position: (i32, i32), dx: i32, dy: i32) -> (r: WindowRequest)
    ensures
        r == WindowRequest::SetPosition(saturating_i32(position.0 + dx), saturating_i32(position.1 + dy)),
{
    WindowRequest::SetPosition(add_saturating(position.0, dx as i64), add_saturating(position.1, dy as i64))
}

/// The centre of a monitor at `monitor_position` of size `monitor_size`.
pub fn screen_center_position(monitor_position: (i32, i32), monitor_size: (u32, u32)) -> (r: (i32, i32))
    ensures
        r == (
            saturating_i32(monitor_position.0 + monitor_size.0 / 2),
            saturating_i32(monitor_position.1 + monitor_size.1 / 2),
        ),
{
    let x = add_saturating(monitor_position.0, (monitor_size.0 / 2) as i64);
    let y = add_saturating(monitor_position.1, (monitor_size.1 / 2) as i64);
    (x, y)
}

fn centered_offset(monitor: u32, window: u32) -> (r: i64)
    ensures
        r == half_toward_zero(monitor - window),
        -0x1_0000_0000 <= r <= 0x1_0000_0000,
{
    let d: i64 = monitor as i64 - window as i64;
    if d >= 0 {
        d / 2
    } else {
        -((-d) / 2)
    }
}

/// Where a window of `window_size` stands centred on a monitor at
/// `monitor_position` of size `monitor_size`.
pub fn centered_window_position(monitor_position: (i32, i32), monitor_size: (u32, u32), window_size: (u32, u32)) -> (r: (
    i32,
    i32,
))
    ensures
        r == (
            saturating_i32(monitor_position.0 + half_toward_zero(monitor_size.0 - window_size.0)),
            saturating_i32(monitor_position.1 + half_toward_zero(monitor_size.1 - window_size.1)),
        ),
{
    let x = add_saturating(monitor_position.0, centered_offset(monitor_size.0, window_size.0));
    let y = add_saturating(monitor_position.1, centered_offset(monitor_size.1, window_size.1));
    (x, y)
}

/// Moves the window to the centre of its monitor.
pub fn center_window(monitor_position: (i32, i32), monitor_size: (u32, u32), window_size: (u32, u32)) -> (r: WindowRequest)
    ensures
        r == WindowRequest::SetPosition(
            saturating_i32(monitor_position.0 + half_toward_zero(monitor_size.0 - window_size.0)),
            saturating_i32(monitor_position.1 + half_toward_zero(monitor_size.1 - window_size.1)),
        ),
{
    let (x, y) = centered_window_position(monitor_position, monitor_size, window_size);
    WindowRequest::SetPosition(x, y)
}

pub fn show_cursor(show: bool) -> (r: WindowRequest)
    ensures
        r == WindowRequest::ShowCursor(show),
{
    WindowRequest::ShowCursor(show)
}

pub fn lock_cursor(lock: bool) -> (r: WindowRequest)
    ensures
        r == WindowRequest::LockCursor(lock),
{
    WindowRequest::LockCursor(lock)
}

/// Shows or hides the cursor, then locks or frees it.
pub fn set_cursor_mode(visible: bool, locked: bool) -> (r: Vec<WindowRequest>)
    ensures
        r@ == seq![WindowRequest::ShowCursor(visible), WindowRequest::LockCursor(locked)],
{
    let mut r: Vec<WindowRequest> = Vec::new();
    r.push(show_cursor(visible));
    r.push(lock_cursor(locked));
    r
}

} // verus!
