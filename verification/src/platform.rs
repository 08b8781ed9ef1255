//! The display server the desktop runs, which decides how the overlay and the
//! global shortcut are set up.
use vstd::prelude::*;
use crate::text::str_eq;

verus! {

/// The active display server or OS platform.
#[derive(Debug, Clone, Copy, PartialEq, Eq, Structural)]
pub enum DisplayServer {
    WaylandGnome,
    WaylandWlroots,
    X11,
    Windows,
    MacOS,
}

/// Whether the session type variable names a Wayland session.
pub fn is_wayland_session(session_type: &Option<String>) -> (b: bool)
    ensures
        b == (session_type matches Some(v) && v@ == "wayland"@),
{
    match session_type {
        Some(v) => str_eq(v.as_str(), "wayland"),
        None => false,
    }
}

/// The display server of a Linux session: under Wayland, wlroots when its
/// clipboard tool answers and GNOME otherwise; X11 for anything else.
pub fn linux_display_server(wayland: bool, wlroots_available: bool) -> (d: DisplayServer)
    ensures
        d == if !wayland {
            DisplayServer::X11
        } else if wlroots_available {
            DisplayServer::WaylandWlroots
        } else {
            DisplayServer::WaylandGnome
        },
{
    if !wayland {
        DisplayServer::X11
    } else if wlroots_available {
        DisplayServer::WaylandWlroots
    } else {
        DisplayServer::WaylandGnome
    }
}

} // verus!
