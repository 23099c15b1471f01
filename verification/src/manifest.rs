use vstd::prelude::*;
use std::collections::HashMap;
use crate::event::{Event, EventView};

verus! {

broadcast use vstd::std_specs::hash::group_hash_axioms;

/// The event constructed for a registered type identifier: it carries the
/// identifier itself, the delivery class the registration fixed, and the
/// payload bytes handed to the lookup.
pub open spec fn constructed_event(m: Map<u16, bool>, type_id: u16, payload: Seq<u8>) -> EventView {
    EventView { type_id, guaranteed: m[type_id], payload }
}

/// The type registry: maps a numeric event-type identifier to the
/// delivery class of the events it constructs. The decode path queries
/// it and never mutates it.
pub struct Manifest {
    registered: HashMap<u16, bool>,
}

impl View for Manifest {
    type V = Map<u16, bool>;

    closed spec fn view(&self) -> Map<u16, bool> {
        self.registered@
    }
}

impl Manifest {
    pub fn new() -> (m: Manifest)
        ensures
            m@ == Map::<u16, bool>::empty(),
    {
        Manifest { registered: HashMap::new() }
    }

    /// Registers a type identifier together with the delivery class of
    /// the events it constructs. A later registration for the same
    /// identifier replaces the earlier one.
    pub fn register(&mut self, type_id: u16, guaranteed: bool)
        ensures
            final(self)@ == old(self)@.insert(type_id, guaranteed),
    {
        self.registered.insert(type_id, guaranteed);
    }

    /// Looks the identifier up and constructs a typed event around the
    /// given payload, or returns nothing when the identifier is
    /// unregistered.
    pub fn create_event(&self, type_id: u16, payload: Vec<u8>) -> (r: Option<Event>)
        ensures
            r matches Some(e) ==> self@.contains_key(type_id) && e@ == constructed_event(
                self@,
                type_id,
                payload@,
            ),
            r is None <==> !self@.contains_key(type_id),
    {
        match self.registered.get(&type_id) {
            Some(g) => Some(Event::new(type_id, *g, payload)),
            None => None,
        }
    }
}

} // verus!
