//! Keyboard shortcuts, and how long things stay on the screen.

use crate::camera::{Camera, TimeBase};
use crate::drops::XYDragAccumulator;
use crate::markers::MarkerSet;
use vstd::prelude::*;

verus! {

use crate::markers::MarkersView;

/// Milliseconds within which a second `g` completes the sequence.
pub const SEQUENCE_MS: u64 = 700;

/// Milliseconds after which the cursor of a mouse that left is taken away.
pub const CURSOR_IDLE_MS: u64 = 500;

/// Milliseconds for which a message is shown.
pub const FLASH_MS: u64 = 3_000;

/// Milliseconds between two counts of the samples of groups.
pub const COUNT_REFRESH_MS: u64 = 1_000;

/// The keys that were pressed since the last look.
#[derive(Clone, Copy, Debug, PartialEq, Eq, Structural)]
pub struct KeyPresses {
    pub f: bool,
    pub g: bool,
    pub shift: bool,
    pub home: bool,
    pub m: bool,
    /// Delete or backspace.
    pub remove: bool,
    pub escape: bool,
}

/// What the view must do after the keys.
#[derive(Clone, Copy, Debug, PartialEq, Eq, Structural)]
pub enum ViewCommand {
    Stay,
    /// Show a fifth of the view, around the cursor.
    ZoomIn,
    /// Show all data.
    ShowAll,
}

/// What keys leave behind: when a first `g` was pressed, and whether clicks place
/// markers.
#[derive(Clone, Copy, Debug, PartialEq, Eq)]
pub struct KeyState {
    pub pending_g: Option<u64>,
    pub marker_mode: bool,
}

/// Whether more than `limit` has passed since `then`.
pub open spec fn is_over(then: u64, now: u64, limit: u64) -> bool {
    now - then > limit
}

/// Whether more than `limit` has passed since `then`. Times are in one unit.
pub fn over(then: u64, now: u64, limit: u64) -> (r: bool)
    ensures
        r == is_over(then, now, limit),
{
    now > then && now - then > limit
}

/// Whether it is time to do something again that is done every `period`.
pub fn is_due(last: Option<u64>, now: u64, period: u64) -> (r: bool)
    ensures
        r == (last matches Some(t) ==> now - t >= period),
{
    match last {
        Some(t) => now >= t && now - t >= period,
        None => true,
    }
}

/// The first `g` that still counts.
pub open spec fn live_g(pending: Option<u64>, now: u64) -> Option<u64> {
    match pending {
        Some(t) => if is_over(t, now, SEQUENCE_MS) {
            None
        } else {
            Some(t)
        },
        None => None,
    }
}

/// What keys leave behind after others.
pub open spec fn after_keys(s: KeyState, k: KeyPresses, now: u64) -> KeyState {
    let live = live_g(s.pending_g, now);
    let pending = if !k.g {
        live
    } else if k.shift || live is Some {
        None
    } else {
        Some(now)
    };
    let mode = if k.m {
        !s.marker_mode
    } else {
        s.marker_mode
    };
    if k.escape {
        KeyState { pending_g: None, marker_mode: false }
    } else {
        KeyState { pending_g: pending, marker_mode: mode }
    }
}

/// What the view must do after keys. Going home undoes a zoom of the same moment.
pub open spec fn command_of(s: KeyState, k: KeyPresses, now: u64) -> ViewCommand {
    if !k.g || k.home {
        ViewCommand::Stay
    } else if k.shift {
        ViewCommand::ZoomIn
    } else if live_g(s.pending_g, now) is Some {
        ViewCommand::ShowAll
    } else {
        ViewCommand::Stay
    }
}

/// The camera after keys, but for the command that they give.
pub open spec fn camera_after(c: Camera, k: KeyPresses) -> Camera {
    let toggled = if k.f {
        Camera {
            mode: c.mode.other(),
            free_bounds_s: if c.mode.other() == TimeBase::Follow {
                None
            } else {
                c.free_bounds_s
            },
            ..c
        }
    } else {
        c
    };
    if k.home {
        Camera { mode: TimeBase::Follow, free_bounds_s: None, ..toggled }
    } else {
        toggled
    }
}

/// The markers after keys: the selected one is removed.
pub open spec fn markers_after(m: MarkersView, k: KeyPresses) -> MarkersView {
    match m.selected {
        Some(id) => if k.remove {
            m.without(id)
        } else {
            m
        },
        None => m,
    }
}

/// Reacts to keys: `f` changes the time base, `gg` shows all data, `G` zooms in, home
/// resets the view, `m` changes marker mode, delete removes the selected marker, and
/// escape ends what was begun.
pub fn press_keys(
    state: &mut KeyState,
    cam: &mut Camera,
    markers: &mut MarkerSet,
    xy: &mut XYDragAccumulator,
    k: KeyPresses,
    now_ms: u64,
) -> (r: ViewCommand)
    requires
        old(markers)@.wf(),
    ensures
        r == command_of(*old(state), k, now_ms),
        *final(state) == after_keys(*old(state), k, now_ms),
        *final(cam) == camera_after(*old(cam), k),
        final(markers)@.wf(),
        final(markers)@ == markers_after(old(markers)@, k),
        final(xy).first == (if k.escape {
            None
        } else {
            old(xy).first
        }),
{
    if let Some(t) = state.pending_g {
        if over(t, now_ms, SEQUENCE_MS) {
            state.pending_g = None;
        }
    }
    if k.f {
        cam.mode = cam.mode.toggle();
        if cam.mode == TimeBase::Follow {
            cam.free_bounds_s = None;
        }
    }
    let mut command = ViewCommand::Stay;
    if k.g {
        if k.shift {
            command = ViewCommand::ZoomIn;
            state.pending_g = None;
        } else if state.pending_g.is_some() {
            command = ViewCommand::ShowAll;
            state.pending_g = None;
        } else {
            state.pending_g = Some(now_ms);
        }
    }
    if k.home {
        cam.reset();
        command = ViewCommand::Stay;
    }
    if k.m {
        state.marker_mode = !state.marker_mode;
    }
    if k.remove {
        match markers.selected_id() {
            Some(id) => {
                markers.remove(id);
            },
            None => {},
        }
    }
    if k.escape {
        xy.cancel();
        state.marker_mode = false;
        state.pending_g = None;
    }
    command
}

/// Two presses of `g` in time show all data, and leave no half sequence behind.
pub proof fn law_double_g_shows_all(s: KeyState, t: u64, later: u64)
    requires
        t <= later <= t + SEQUENCE_MS,
        live_g(s.pending_g, t) is None,
    ensures
        ({
            let g = KeyPresses {
                f: false,
                g: true,
                shift: false,
                home: false,
                m: false,
                remove: false,
                escape: false,
            };
            let once = after_keys(s, g, t);
            &&& command_of(s, g, t) == ViewCommand::Stay
            &&& command_of(once, g, later) == ViewCommand::ShowAll
            &&& after_keys(once, g, later).pending_g is None
        }),
{
}

/// Changes the time base to one that was chosen; following forgets the free bounds.
pub fn choose_time_base(cam: &mut Camera, mode: TimeBase)
    ensures
        *final(cam) == (if old(cam).mode == mode {
            *old(cam)
        } else {
            Camera {
                mode,
                free_bounds_s: if mode == TimeBase::Follow {
                    None
                } else {
                    old(cam).free_bounds_s
                },
                ..*old(cam)
            }
        }),
{
    if cam.mode != mode {
        cam.mode = mode;
        if mode == TimeBase::Follow {
            cam.free_bounds_s = None;
        }
    }
}

} // verus!
