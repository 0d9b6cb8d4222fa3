use vstd::prelude::*;

use crate::keyed::MapKey;

verus! {

/// Identifies an event handler: the event system that owns it and the event type it handles.
/// Type identities are the integer keys the caller assigns to types.
#[derive(Clone, Copy, PartialEq, Eq, Structural, Debug)]
pub struct EventHandler {
    pub event_system_type_id: u64,
    pub event_type_id: u64,
}

impl EventHandler {
    pub fn new(event_system_type_id: u64, event_type_id: u64) -> (h: Self)
        ensures
            h.event_system_type_id == event_system_type_id,
            h.event_type_id == event_type_id,
    {
        EventHandler { event_system_type_id, event_type_id }
    }

    pub fn event_type_id(&self) -> (t: u64)
        ensures
            t == self.event_type_id,
    {
        self.event_type_id
    }

    pub fn event_system_type_id(&self) -> (t: u64)
        ensures
            t == self.event_system_type_id,
    {
        self.event_system_type_id
    }
}

impl MapKey for EventHandler {
    fn same_key(&self, other: &Self) -> (r: bool) {
        self.event_system_type_id == other.event_system_type_id && self.event_type_id
            == other.event_type_id
    }
}

} // verus!
