use vstd::prelude::*;

verus! {

/// A single-byte discriminator naming which subsystem a section of a
/// multiplexed packet body belongs to. Any byte outside the known set
/// reads as `Unknown`, so an unrecognized tag stays representable rather
/// than being an error.
#[derive(Clone, Copy, Debug, PartialEq, Eq, Structural)]
pub enum ManagerType {
    Event,
    Entity,
    Unknown,
}

/// The manager type a wire byte denotes: 1 is `Event`, 2 is `Entity`,
/// and every other value is `Unknown`.
pub open spec fn manager_type_of_byte(b: u8) -> ManagerType {
    if b == 1 {
        ManagerType::Event
    } else if b == 2 {
        ManagerType::Entity
    } else {
        ManagerType::Unknown
    }
}

impl From<u8> for ManagerType {
    fn from(orig: u8) -> (r: ManagerType) {
        match orig {
            1 => ManagerType::Event,
            2 => ManagerType::Entity,
            _ => ManagerType::Unknown,
        }
    }
}

impl vstd::std_specs::convert::FromSpecImpl<u8> for ManagerType {
    open spec fn obeys_from_spec() -> bool {
        true
    }

    open spec fn from_spec(orig: u8) -> ManagerType {
        manager_type_of_byte(orig)
    }
}

} // verus!
