//! Decisions around the XDG Desktop Portal session used for synthetic
//! keyboard input.
//!
//! GNOME 46 implements neither `GlobalShortcuts` nor any other way for a
//! Wayland client to inject keystrokes, so pasting goes through the
//! `RemoteDesktop` portal: a keyboard-only session is created once, and
//! Ctrl+V is sent as X11 keysyms with `NotifyKeyboardKeysym`. The D-Bus
//! conversation itself is the caller's; this module holds what it decides:
//! which keys to send, how a portal answer code reads, and how a failed
//! session is reported.

use vstd::prelude::*;
use crate::text::{push_char, str_starts_with, starts_with, u64_to_string, decimal};

verus! {

/// `DeviceType::Keyboard`, the only device type requested.
pub const DEVICE_KEYBOARD: u32 = 1;

/// X11 keysym of the left Control key.
pub const KEYSYM_CONTROL_L: i32 = 0xFFE3;

/// X11 keysym of the lower-case `v`.
pub const KEYSYM_LOWER_V: i32 = 0x0076;

/// How long, in seconds, to wait for the user to answer a portal prompt.
pub const CONSENT_TIMEOUT_SECS: u64 = 120;

/// Milliseconds between pressing and releasing `v`, so that compositors do
/// not coalesce the two.
pub const KEY_GAP_MS: u64 = 12;

/// Outcome of bringing up the input session.
#[derive(Clone, Debug)]
pub enum PortalState {
    /// No session: startup has not finished, or it failed for a platform reason.
    Unavailable { reason: String },
    /// Session is live; synthetic keys will be delivered.
    Ready,
    /// The session was refused by the user or the backend.
    Denied { reason: String },
}

#[derive(Clone, Copy, Debug, PartialEq, Eq, Structural)]
pub enum KeyState {
    Released,
    Pressed,
}

impl KeyState {
    /// The key state as `NotifyKeyboardKeysym` takes it: 0 released, 1 pressed.
    pub fn as_u32(self) -> (r: u32)
        ensures
            r == (match self {
                KeyState::Released => 0u32,
                KeyState::Pressed => 1u32,
            }),
    {
        match self {
            KeyState::Released => 0,
            KeyState::Pressed => 1,
        }
    }
}

/// The key events of one Ctrl+V, in the order they are sent: Control down,
/// `v` down, `v` up, Control up. A short pause belongs between the second and
/// the third.
pub fn paste_keys() -> (r: Vec<(i32, KeyState)>)
    ensures
        r@ == seq![
            (KEYSYM_CONTROL_L, KeyState::Pressed),
            (KEYSYM_LOWER_V, KeyState::Pressed),
            (KEYSYM_LOWER_V, KeyState::Released),
            (KEYSYM_CONTROL_L, KeyState::Released),
        ],
{
    let mut r: Vec<(i32, KeyState)> = Vec::new();
    r.push((KEYSYM_CONTROL_L, KeyState::Pressed));
    r.push((KEYSYM_LOWER_V, KeyState::Pressed));
    r.push((KEYSYM_LOWER_V, KeyState::Released));
    r.push((KEYSYM_CONTROL_L, KeyState::Released));
    assert(r@ =~= seq![
        (KEYSYM_CONTROL_L, KeyState::Pressed),
        (KEYSYM_LOWER_V, KeyState::Pressed),
        (KEYSYM_LOWER_V, KeyState::Released),
        (KEYSYM_CONTROL_L, KeyState::Released),
    ]);
    r
}

pub const CANCELLED_MESSAGE: &'static str = "cancelled: the input session request was dismissed";

pub const DENIED_MESSAGE: &'static str = "denied: this desktop does not allow remote input";

pub const REFUSED_PREFIX: &'static str = "portal refused the request (code ";

/// What a portal `Response` code means: `None` for success (0), else the
/// reason the request failed.
pub open spec fn response_error_spec(code: u32) -> Option<Seq<char>> {
    if code == 0 {
        None
    } else if code == 1 {
        Some(CANCELLED_MESSAGE@)
    } else if code == 2 {
        Some(DENIED_MESSAGE@)
    } else {
        Some(REFUSED_PREFIX@ + decimal(code as nat) + seq![')'])
    }
}

/// The reason a portal request with answer `code` failed, or `None` when it
/// succeeded (code 0): 1 means the user dismissed it, 2 that the desktop
/// refuses, anything else is reported with its number.
pub fn response_error(code: u32) -> (r: Option<String>)
    ensures
        match r {
            Some(m) => response_error_spec(code) == Some(m@),
            None => response_error_spec(code) is None,
        },
{
    if code == 0 {
        None
    } else if code == 1 {
        Some(CANCELLED_MESSAGE.to_owned())
    } else if code == 2 {
        Some(DENIED_MESSAGE.to_owned())
    } else {
        let mut m = REFUSED_PREFIX.to_owned();
        let n = u64_to_string(code as u64);
        m.append(n.as_str());
        push_char(&mut m, ')');
        Some(m)
    }
}

/// What to do with one `Response` signal while a portal request is awaited.
#[derive(Clone, Copy, Debug, PartialEq, Eq, Structural)]
pub enum SignalStep {
    /// The wait is over: too long since the request was made.
    TimedOut,
    /// The signal answers another request: wait for the next one.
    Ignore,
    /// The signal answers this request: read its code.
    Read,
}

/// The reason given when the user did not answer in time.
pub const RESPONSE_TIMED_OUT: &'static str = "timed out waiting for portal response";

/// The reason given when the signal stream ends without an answer.
pub const RESPONSE_STREAM_CLOSED: &'static str = "portal response stream closed";

/// Decide on one `Response` signal: `past_deadline` says whether the
/// consent timeout has run out, `path` is the object path the signal came
/// from (when it carries one) and `request` the path of the awaited request.
/// Signals of other requests are skipped, since the subscription matches on
/// interface and member only.
pub fn signal_step(past_deadline: bool, path: Option<&str>, request: &str) -> (r: SignalStep)
    ensures
        r == (if past_deadline {
            SignalStep::TimedOut
        } else if (path matches Some(p) && p@ == request@) {
            SignalStep::Read
        } else {
            SignalStep::Ignore
        }),
{
    if past_deadline {
        return SignalStep::TimedOut;
    }
    match path {
        Some(p) => {
            if p.to_owned() == request.to_owned() {
                SignalStep::Read
            } else {
                SignalStep::Ignore
            }
        },
        None => SignalStep::Ignore,
    }
}

pub open spec fn portal_state_view(s: PortalState) -> (int, Seq<char>) {
    match s {
        PortalState::Unavailable { reason } => (0, reason@),
        PortalState::Ready => (1, Seq::empty()),
        PortalState::Denied { reason } => (2, reason@),
    }
}

/// How a failed session start is reported: as a refusal when the reason
/// says the request was cancelled or denied, else as unavailable, with the
/// reason kept either way.
pub fn failure_state(reason: String) -> (r: PortalState)
    ensures
        portal_state_view(r) == (if starts_with(reason@, "cancelled"@) || starts_with(
            reason@,
            "denied"@,
        ) {
            (2int, reason@)
        } else {
            (0int, reason@)
        }),
{
    let denied = str_starts_with(reason.as_str(), "cancelled") || str_starts_with(
        reason.as_str(),
        "denied",
    );
    if denied {
        PortalState::Denied { reason }
    } else {
        PortalState::Unavailable { reason }
    }
}

/// The state shown before the session has been attempted.
pub fn starting_state() -> (r: PortalState)
    ensures
        portal_state_view(r) == (0int, "starting"@),
{
    PortalState::Unavailable { reason: "starting".to_owned() }
}

} // verus!
