use vstd::prelude::*;

verus! {

/// The mathematical value of an event: the wire type identifier, the
/// delivery class, and the payload bytes.
pub ghost struct EventView {
    pub type_id: u16,
    pub guaranteed: bool,
    pub payload: Seq<u8>,
}

/// The sequence of event values that a sequence of events denotes.
pub open spec fn events_view(s: Seq<Event>) -> Seq<EventView> {
    s.map_values(|e: Event| e@)
}

/// A typed application event as this core carries it: a numeric type
/// identifier agreed between peers through the manifest, a flag that
/// selects guaranteed or best-effort delivery, and the encoded payload
/// bytes. The core never inspects the payload.
pub struct Event {
    pub type_id: u16,
    pub guaranteed: bool,
    pub payload: Vec<u8>,
}

impl View for Event {
    type V = EventView;

    open spec fn view(&self) -> EventView {
        EventView { type_id: self.type_id, guaranteed: self.guaranteed, payload: self.payload@ }
    }
}

impl Event {
    pub fn new(type_id: u16, guaranteed: bool, payload: Vec<u8>) -> (e: Event)
        ensures
            e@ == (EventView { type_id, guaranteed, payload: payload@ }),
    {
        Event { type_id, guaranteed, payload }
    }

    /// Duplicates the event by value. Several logical holders (the caller,
    /// the outgoing queue, a ledger entry) each keep their own copy of the
    /// same conceptual event.
    pub fn duplicate(&self) -> (e: Event)
        ensures
            e@ == self@,
    {
        let payload = self.payload.clone();
        proof {
            assert(payload@ =~= self.payload@);
        }
        Event { type_id: self.type_id, guaranteed: self.guaranteed, payload }
    }

    /// Whether the event belongs to the guaranteed delivery class.
    pub fn is_guaranteed(&self) -> (r: bool)
        ensures
            r == self@.guaranteed,
    {
        self.guaranteed
    }
}

} // verus!
