//! Structured records for native input events.
//!
//! A native callback installed by the reconciler packages what happened
//! into a [`UserEventRecord`]; the toolkit adapter sends it over a
//! non-blocking queue, and the scheduler forwards it to the diff engine.

use vstd::prelude::*;
use crate::node::EventName;

verus! {

/// Payload of a button press (presses carry no further data).
pub struct PressData {}

/// Payload of a text-field change: the field's new content.
pub struct TextChangeData {
    pub value: String,
}

/// The data carried by one native input occurrence.
pub enum EventPayload {
    Press(PressData),
    TextChange(TextChangeData),
}

/// One native input occurrence, addressed back to the diff engine: the
/// component scope that owns the listener, the external id of the node it
/// fired on, the event name, and the payload.
pub struct UserEventRecord {
    pub scope: u64,
    pub target: u64,
    pub name: EventName,
    pub payload: EventPayload,
}

/// Builds the record for a button press.
pub fn press_event(scope: u64, target: u64) -> (e: UserEventRecord)
    ensures
        e.scope == scope,
        e.target == target,
        e.name == EventName::Press,
        e.payload is Press,
{
    UserEventRecord { scope, target, name: EventName::Press, payload: EventPayload::Press(
        PressData {},
    ) }
}

/// Builds the record for a text-field change carrying the new content.
pub fn text_change_event(scope: u64, target: u64, value: String) -> (e: UserEventRecord)
    ensures
        e.scope == scope,
        e.target == target,
        e.name == EventName::TextChange,
        (e.payload matches EventPayload::TextChange(d) && d.value@ == value@),
{
    UserEventRecord {
        scope,
        target,
        name: EventName::TextChange,
        payload: EventPayload::TextChange(TextChangeData { value }),
    }
}

} // verus!
