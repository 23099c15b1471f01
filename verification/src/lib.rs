//! Reliability and framing core for a networked event-delivery protocol.
//!
//! Callers emit typed application events in two delivery classes:
//! best-effort (sent at most once) and guaranteed (retransmitted until a
//! delivery notification arrives). The [`event_manager::EventManager`]
//! tracks which in-flight packet carries which guaranteed events and
//! reclaims or requeues them exactly once on acknowledgment or loss; the
//! decode path turns a packet's event section into typed events through a
//! type registry ([`manifest::Manifest`]).

pub mod event;
pub mod event_manager;
pub mod manager_type;
pub mod manifest;
pub mod packet_reader;
