//! Input events and the capture source's advisory running flag.
//!
//! The platform hook itself lives outside this crate: it emits raw events on
//! its own thread and cannot be paused, only asked to stop. What is verified
//! here is the flag discipline around it — one capture source at a time, a
//! second start refused without side effect — and the shape of the events it
//! hands on. The flag is advisory only: it tracks intent, not the hook's
//! actual lifecycle, and a false reading never promises that no further
//! event will arrive.

use vstd::prelude::*;

verus! {

/// One normalized input event, as carried from the capture source to the
/// aggregator over an ordered channel.
#[derive(Debug, Clone)]
pub enum InputEvent {
    KeyPress { key_name: String, key_code: Option<i32> },
    MouseClick { button: String },
}

/// Abstract form of an input event.
pub enum EventRec {
    Key { name: Seq<char>, code: Option<i32> },
    Click { button: Seq<char> },
}

impl View for InputEvent {
    type V = EventRec;

    open spec fn view(&self) -> EventRec {
        match self {
            InputEvent::KeyPress { key_name, key_code } => EventRec::Key {
                name: key_name@,
                code: *key_code,
            },
            InputEvent::MouseClick { button } => EventRec::Click { button: button@ },
        }
    }
}

/// Failure to start the capture source.
#[derive(Debug, Clone, Copy, PartialEq, Eq, Structural)]
pub enum CaptureError {
    AlreadyRunning,
}

/// The capture source's advisory running flag. Whoever manages the capture
/// thread owns one and serializes start and stop decisions through it.
pub struct RunningFlag {
    running: bool,
}

impl RunningFlag {
    /// Whether a capture source is believed to be running.
    pub closed spec fn running(self) -> bool {
        self.running
    }
}

/// A fresh flag: no capture source running.
pub fn get_running_flag() -> (f: RunningFlag)
    ensures
        !f.running(),
{
    RunningFlag { running: false }
}

/// Claims the flag for a new capture source. While one is already running
/// the claim is refused and nothing changes; otherwise the flag is set and
/// the caller may install the platform hook.
pub fn start_global_listener(flag: &mut RunningFlag) -> (r: Result<(), CaptureError>)
    ensures
        r is Err <==> old(flag).running(),
        final(flag).running(),
{
    if flag.running {
        Err(CaptureError::AlreadyRunning)
    } else {
        flag.running = true;
        Ok(())
    }
}

/// Requests capture teardown: clears the flag. Best effort only — trailing
/// events may still arrive and must be tolerated.
pub fn stop_global_listener(flag: &mut RunningFlag)
    ensures
        !final(flag).running(),
{
    flag.running = false;
}

/// Reads the advisory flag.
pub fn is_listener_running(flag: &RunningFlag) -> (r: bool)
    ensures
        r == flag.running(),
{
    flag.running
}

} // verus!
