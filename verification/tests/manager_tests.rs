use event_relay::event::Event;
use event_relay::event_manager::EventManager;

fn guaranteed(type_id: u16, payload: Vec<u8>) -> Event {
    Event::new(type_id, true, payload)
}

fn best_effort(type_id: u16, payload: Vec<u8>) -> Event {
    Event::new(type_id, false, payload)
}

#[test]
fn empty_manager_queries() {
    let mut manager = EventManager::new();
    assert!(!manager.has_outgoing_events());
    assert!(!manager.has_incoming_events());
    assert!(manager.pop_outgoing_event(0).is_none());
    assert!(manager.pop_incoming_event().is_none());
}

#[test]
fn queue_then_pop_returns_same_event() {
    let mut manager = EventManager::new();
    let event = guaranteed(7, vec![1, 2, 3]);
    manager.queue_outgoing_event(&event);
    assert!(manager.has_outgoing_events());
    let popped = manager.pop_outgoing_event(10).unwrap();
    assert_eq!(popped.type_id, 7);
    assert!(popped.guaranteed);
    assert_eq!(popped.payload, vec![1, 2, 3]);
    assert!(!manager.has_outgoing_events());
}

#[test]
fn guaranteed_event_redelivered_after_drop() {
    let mut manager = EventManager::new();
    manager.queue_outgoing_event(&guaranteed(7, vec![0xAA]));
    let popped = manager.pop_outgoing_event(1).unwrap();
    assert_eq!(popped.type_id, 7);
    assert!(!manager.has_outgoing_events());
    manager.notify_packet_dropped(1);
    // Dropped exactly once: the event is re-observable exactly once.
    let again = manager.pop_outgoing_event(2).unwrap();
    assert_eq!(again.type_id, 7);
    assert_eq!(again.payload, vec![0xAA]);
    assert!(!manager.has_outgoing_events());
}

#[test]
fn delivery_is_final() {
    let mut manager = EventManager::new();
    manager.queue_outgoing_event(&guaranteed(7, vec![]));
    manager.pop_outgoing_event(1).unwrap();
    manager.notify_packet_delivered(1);
    // A later loss notification for the same index must not requeue.
    manager.notify_packet_dropped(1);
    assert!(!manager.has_outgoing_events());
}

#[test]
fn best_effort_event_not_retried() {
    let mut manager = EventManager::new();
    manager.queue_outgoing_event(&best_effort(3, vec![9]));
    let popped = manager.pop_outgoing_event(4).unwrap();
    assert!(!popped.guaranteed);
    manager.notify_packet_dropped(4);
    assert!(!manager.has_outgoing_events());
}

#[test]
fn unpop_restores_front_of_queue() {
    let mut manager = EventManager::new();
    manager.queue_outgoing_event(&guaranteed(1, vec![1]));
    manager.queue_outgoing_event(&guaranteed(2, vec![2]));
    manager.queue_outgoing_event(&guaranteed(3, vec![3]));
    let _e1 = manager.pop_outgoing_event(8).unwrap();
    let e2 = manager.pop_outgoing_event(8).unwrap();
    assert_eq!(e2.type_id, 2);
    // The packet ran out of room for e2: put it back.
    manager.unpop_outgoing_event(8, &e2);
    let next = manager.pop_outgoing_event(9).unwrap();
    assert_eq!(next.type_id, 2);
    let after = manager.pop_outgoing_event(9).unwrap();
    assert_eq!(after.type_id, 3);
}

#[test]
fn unpop_shrinks_ledger_entry_to_first_pop() {
    let mut manager = EventManager::new();
    manager.queue_outgoing_event(&guaranteed(1, vec![1]));
    manager.queue_outgoing_event(&guaranteed(2, vec![2]));
    manager.pop_outgoing_event(8).unwrap();
    let e2 = manager.pop_outgoing_event(8).unwrap();
    manager.unpop_outgoing_event(8, &e2);
    manager.pop_outgoing_event(9).unwrap();
    // The ledger entry for index 8 now records only the first event.
    manager.notify_packet_dropped(8);
    let requeued = manager.pop_outgoing_event(9).unwrap();
    assert_eq!(requeued.type_id, 1);
    assert!(!manager.has_outgoing_events());
}

#[test]
fn unpop_of_only_recorded_event_removes_entry() {
    let mut manager = EventManager::new();
    manager.queue_outgoing_event(&guaranteed(5, vec![]));
    let e = manager.pop_outgoing_event(8).unwrap();
    manager.unpop_outgoing_event(8, &e);
    // The emptied ledger entry is gone: a drop for index 8 requeues nothing.
    manager.pop_outgoing_event(9).unwrap();
    manager.notify_packet_dropped(8);
    assert!(!manager.has_outgoing_events());
}

#[test]
fn unpop_of_best_effort_event_returns_to_front() {
    let mut manager = EventManager::new();
    manager.queue_outgoing_event(&best_effort(4, vec![4]));
    manager.queue_outgoing_event(&guaranteed(5, vec![5]));
    let e = manager.pop_outgoing_event(8).unwrap();
    assert_eq!(e.type_id, 4);
    manager.unpop_outgoing_event(8, &e);
    let next = manager.pop_outgoing_event(9).unwrap();
    assert_eq!(next.type_id, 4);
}

#[test]
fn notifications_are_idempotent() {
    let mut manager = EventManager::new();
    manager.queue_outgoing_event(&guaranteed(1, vec![]));
    manager.pop_outgoing_event(1).unwrap();
    manager.notify_packet_delivered(1);
    manager.notify_packet_delivered(1);
    assert!(!manager.has_outgoing_events());

    manager.queue_outgoing_event(&guaranteed(2, vec![]));
    manager.pop_outgoing_event(2).unwrap();
    manager.notify_packet_dropped(2);
    manager.notify_packet_dropped(2);
    // Dropping twice requeues once, exactly as dropping once does.
    let again = manager.pop_outgoing_event(3).unwrap();
    assert_eq!(again.type_id, 2);
    assert!(!manager.has_outgoing_events());
}

#[test]
fn drop_requeues_all_recorded_events_in_order_at_back() {
    let mut manager = EventManager::new();
    manager.queue_outgoing_event(&guaranteed(1, vec![]));
    manager.queue_outgoing_event(&guaranteed(2, vec![]));
    manager.queue_outgoing_event(&guaranteed(3, vec![]));
    manager.pop_outgoing_event(7).unwrap();
    manager.pop_outgoing_event(7).unwrap();
    manager.notify_packet_dropped(7);
    // The lost events go to the back, after the still-queued event.
    assert_eq!(manager.pop_outgoing_event(8).unwrap().type_id, 3);
    assert_eq!(manager.pop_outgoing_event(8).unwrap().type_id, 1);
    assert_eq!(manager.pop_outgoing_event(8).unwrap().type_id, 2);
    assert!(!manager.has_outgoing_events());
}

#[test]
fn caller_keeps_its_own_instance() {
    let mut manager = EventManager::new();
    let event = guaranteed(6, vec![1]);
    manager.queue_outgoing_event(&event);
    // The queued copy is a duplicate: the caller's instance is untouched.
    assert_eq!(event.type_id, 6);
    assert_eq!(event.payload, vec![1]);
    let copy = event.duplicate();
    assert_eq!(copy.type_id, event.type_id);
    assert_eq!(copy.guaranteed, event.guaranteed);
    assert_eq!(copy.payload, event.payload);
}
