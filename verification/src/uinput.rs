//! The events written to the virtual keyboard.

use input_linux::EventKind as LinuxEventKind;
use input_linux::SynchronizeKind;
use vstd::prelude::*;

use crate::key::Key;

verus! {

/// The kinds of event that are written.
#[derive(Clone, Copy, Debug, PartialEq, Eq, Structural)]
pub enum EventKind {
    Synchronize,
    Key,
}

/// One event, as the kernel reads it.
#[derive(Clone, Copy, Debug, PartialEq, Eq, Structural)]
pub struct InputEvent {
    /// Seconds of the time stamp.
    pub tv_sec: i64,
    /// Microseconds of the time stamp.
    pub tv_usec: i64,
    /// The type of the event.
    pub type_: u16,
    /// What the event is about; its meaning depends on the type.
    pub code: u16,
    /// The new value.
    pub value: i32,
}

impl EventKind {
    /// The number of the event type in the kernel's input event interface.
    pub open spec fn code(self) -> u16 {
        match self {
            EventKind::Synchronize => 0,
            EventKind::Key => 1,
        }
    }
}

/// `u16::from` of `input_linux::EventKind`: the number that the enum gives to each kind.
#[verifier::external_body]
fn event_kind_code(kind: EventKind) -> (code: u16)
    ensures
        code == kind.code(),
{
    u16::from(match kind {
        EventKind::Synchronize => LinuxEventKind::Synchronize,
        EventKind::Key => LinuxEventKind::Key,
    })
}

/// `u16::from` of `input_linux::SynchronizeKind::Report`: the number 0.
#[verifier::external_body]
fn report_code() -> (code: u16)
    ensures
        code == 0,
{
    u16::from(SynchronizeKind::Report)
}

/// An event of the given kind, without a time stamp.
pub open spec fn event(kind: EventKind, code: u16, value: i32) -> InputEvent {
    InputEvent { tv_sec: 0, tv_usec: 0, type_: kind.code(), code, value }
}

/// The report that ends a group of events.
pub open spec fn report() -> InputEvent {
    event(EventKind::Synchronize, 0, 0)
}

/// A key event and the report that ends it.
pub open spec fn key_toggle(key: Key, value: i32) -> Seq<InputEvent> {
    seq![event(EventKind::Key, key.spec_code(), value), report()]
}

/// Whether an event gives the key of this code this value.
pub open spec fn is_key_event(e: InputEvent, code: u16, value: i32) -> bool {
    e.type_ == EventKind::Key.code() && e.code == code && e.value == value
}

/// Makes the event to write for a kind, a code and a value; its time stamp is zero.
pub fn emit(kind: EventKind, code: u16, value: i32) -> (e: InputEvent)
    ensures
        e == event(kind, code, value),
{
    InputEvent { tv_sec: 0, tv_usec: 0, type_: event_kind_code(kind), code, value }
}

/// The events to write, in this order, for a key that takes the given value.
pub fn toggle_key(key: Key, value: i32) -> (events: Vec<InputEvent>)
    ensures
        events@ == key_toggle(key, value),
{
    let mut events = Vec::new();
    events.push(emit(EventKind::Key, key.code(), value));
    events.push(emit(EventKind::Synchronize, report_code(), 0));
    events
}

} // verus!
