use vstd::prelude::*;
use std::collections::HashMap;
use std::collections::VecDeque;
use crate::event::{Event, EventView, events_view};
use crate::manifest::{constructed_event, Manifest};
use crate::packet_reader::{u16_from_be_bytes, PacketReader};

verus! {

broadcast use vstd::std_specs::hash::group_hash_axioms;

/// The error a malformed incoming packet raises: a declared payload
/// length would read past the end of the buffer, so the whole packet must
/// be discarded.
#[derive(Clone, Copy, Debug, PartialEq, Eq, Structural)]
pub struct FramingError;

/// The result of parsing `count` event records from `buf` starting at
/// `pos` against the registry `m`: the events the registry recognizes, in
/// record order, together with the position just past the last record —
/// or nothing when a record header or a declared payload would run past
/// the end of the buffer.
pub open spec fn spec_parse_records(
    buf: Seq<u8>,
    pos: int,
    count: nat,
    m: Map<u16, bool>,
) -> Option<(Seq<EventView>, int)>
    decreases count,
{
    if count == 0 {
        Some((Seq::<EventView>::empty(), pos))
    } else if 0 <= pos && pos + 3 <= buf.len() && pos + 3 + (buf[pos + 2] as int) <= buf.len() {
        let tid = u16_from_be_bytes(buf[pos], buf[pos + 1]);
        let plen = buf[pos + 2] as int;
        let payload = buf.subrange(pos + 3, pos + 3 + plen);
        match spec_parse_records(buf, pos + 3 + plen, (count - 1) as nat, m) {
            Some(rest) => Some(
                (
                    if m.contains_key(tid) {
                        seq![constructed_event(m, tid, payload)] + rest.0
                    } else {
                        rest.0
                    },
                    rest.1,
                ),
            ),
            None => None,
        }
    } else {
        None
    }
}

/// The result of parsing a whole event section: one leading count byte,
/// then that many records.
pub open spec fn spec_parse_section(buf: Seq<u8>, pos: int, m: Map<u16, bool>) -> Option<
    (Seq<EventView>, int),
> {
    if 0 <= pos < buf.len() {
        spec_parse_records(buf, pos + 1, buf[pos] as nat, m)
    } else {
        None
    }
}

/// The mathematical state of an event manager: the outgoing queue, the
/// incoming queue, and the sent-events ledger that maps a packet index to
/// the guaranteed events that packet carried.
pub ghost struct EventManagerView {
    pub outgoing: Seq<EventView>,
    pub incoming: Seq<EventView>,
    pub sent: Map<u16, Seq<EventView>>,
}

impl EventManagerView {
    /// Every ledger entry is non-empty and records only guaranteed
    /// events; best-effort events never enter the ledger.
    pub open spec fn wf(self) -> bool {
        forall|idx: u16| #[trigger] self.sent.contains_key(idx) ==> self.sent[idx].len() > 0
            && (forall|i: int|
            0 <= i < self.sent[idx].len() ==> (#[trigger] self.sent[idx][i]).guaranteed)
    }

    /// The state after an event is appended to the back of the outgoing
    /// queue.
    pub open spec fn queued(self, e: EventView) -> EventManagerView {
        EventManagerView { outgoing: self.outgoing.push(e), incoming: self.incoming, sent: self.sent }
    }

    /// The state after the front of the outgoing queue leaves for the
    /// packet with the given index: a guaranteed event is recorded against
    /// that index in the ledger, a best-effort event is not.
    pub open spec fn popped(self, idx: u16) -> EventManagerView
        recommends
            self.outgoing.len() > 0,
    {
        let e = self.outgoing[0];
        let rest = self.outgoing.drop_first();
        if e.guaranteed {
            let entry = if self.sent.contains_key(idx) {
                self.sent[idx]
            } else {
                Seq::<EventView>::empty()
            };
            EventManagerView { outgoing: rest, incoming: self.incoming, sent: self.sent.insert(idx, entry.push(e)) }
        } else {
            EventManagerView { outgoing: rest, incoming: self.incoming, sent: self.sent }
        }
    }

    /// The state after the most recent pop for the given index is undone:
    /// for a guaranteed event the last ledger record for that index is
    /// taken back (and an emptied entry is removed), and the event returns
    /// to the front of the outgoing queue.
    pub open spec fn unpopped(self, idx: u16, e: EventView) -> EventManagerView {
        let sent1 = if e.guaranteed && self.sent.contains_key(idx) {
            let entry = self.sent[idx];
            let shrunk = if entry.len() > 0 {
                entry.drop_last()
            } else {
                entry
            };
            if shrunk.len() > 0 {
                self.sent.insert(idx, shrunk)
            } else {
                self.sent.remove(idx)
            }
        } else {
            self.sent
        };
        EventManagerView { outgoing: seq![e] + self.outgoing, incoming: self.incoming, sent: sent1 }
    }

    /// The state after a delivery notification for the given index: the
    /// ledger entry is discarded, nothing is requeued.
    pub open spec fn delivered(self, idx: u16) -> EventManagerView {
        EventManagerView { outgoing: self.outgoing, incoming: self.incoming, sent: self.sent.remove(idx) }
    }

    /// The state after a loss notification for the given index: every
    /// event the ledger recorded there is appended to the back of the
    /// outgoing queue for retransmission and the entry is removed; a
    /// missing entry makes the notification a no-op.
    pub open spec fn dropped(self, idx: u16) -> EventManagerView {
        if self.sent.contains_key(idx) {
            EventManagerView {
                outgoing: self.outgoing + self.sent[idx],
                incoming: self.incoming,
                sent: self.sent.remove(idx),
            }
        } else {
            self
        }
    }

    /// The state after the front of the incoming queue is consumed.
    pub open spec fn incoming_popped(self) -> EventManagerView
        recommends
            self.incoming.len() > 0,
    {
        EventManagerView { outgoing: self.outgoing, incoming: self.incoming.drop_first(), sent: self.sent }
    }
}

/// The stateful core of the protocol: it owns the outgoing queue, the
/// incoming queue, and the sent-events ledger, and keeps every guaranteed
/// event either queued for sending or recorded against exactly the
/// in-flight packet that carries it.
pub struct EventManager {
    queued_outgoing_events: VecDeque<Event>,
    queued_incoming_events: VecDeque<Event>,
    sent_events: HashMap<u16, Vec<Event>>,
}

impl View for EventManager {
    type V = EventManagerView;

    closed spec fn view(&self) -> EventManagerView {
        EventManagerView {
            outgoing: events_view(self.queued_outgoing_events@),
            incoming: events_view(self.queued_incoming_events@),
            sent: self.sent_events@.map_values(|v: Vec<Event>| events_view(v@)),
        }
    }
}

impl EventManager {
    pub fn new() -> (m: EventManager)
        ensures
            m@ == (EventManagerView {
                outgoing: Seq::<EventView>::empty(),
                incoming: Seq::<EventView>::empty(),
                sent: Map::<u16, Seq<EventView>>::empty(),
            }),
            m@.wf(),
    {
        let m = EventManager {
            queued_outgoing_events: VecDeque::new(),
            queued_incoming_events: VecDeque::new(),
            sent_events: HashMap::new(),
        };
        proof {
            assert(m@.outgoing =~= Seq::<EventView>::empty());
            assert(m@.incoming =~= Seq::<EventView>::empty());
            assert(m@.sent =~= Map::<u16, Seq<EventView>>::empty());
        }
        m
    }

    /// Duplicates the given event and appends the duplicate to the back
    /// of the outgoing queue; the caller keeps its own instance.
    pub fn queue_outgoing_event(&mut self, event: &Event)
        ensures
            final(self)@ == old(self)@.queued(event@),
    {
        self.queued_outgoing_events.push_back(event.duplicate());
        proof {
            assert(self@.outgoing =~= old(self)@.outgoing.push(event@));
            assert(self@.sent =~= old(self)@.sent);
            assert(self@ == old(self)@.queued(event@));
        }
    }

    /// Whether any event awaits transmission.
    pub fn has_outgoing_events(&self) -> (r: bool)
        ensures
            r == (self@.outgoing.len() != 0),
    {
        self.queued_outgoing_events.len() != 0
    }

    /// Removes and returns the front of the outgoing queue, or nothing if
    /// the queue is empty. A guaranteed event is recorded (as a duplicate)
    /// against `packet_index` in the ledger — the entry is created on
    /// first use of that index and appended to afterwards — so that a
    /// later loss notification can requeue it; a best-effort event is
    /// returned without any record. The caller must resolve every index
    /// used here through exactly one of the delivery or loss
    /// notifications, or through an unpop if the packet is abandoned.
    pub fn pop_outgoing_event(&mut self, packet_index: u16) -> (r: Option<Event>)
        ensures
            r is None <==> old(self)@.outgoing.len() == 0,
            r is None ==> final(self)@ == old(self)@,
            r matches Some(e) ==> e@ == old(self)@.outgoing[0] && final(self)@ == old(
                self,
            )@.popped(packet_index),
    {
        match self.queued_outgoing_events.pop_front() {
            Some(event) => {
                if event.is_guaranteed() {
                    let mut entry: Vec<Event> = match self.sent_events.remove(&packet_index) {
                        Some(list) => list,
                        None => Vec::new(),
                    };
                    entry.push(event.duplicate());
                    self.sent_events.insert(packet_index, entry);
                    proof {
                        let ov = old(self)@;
                        let prior = if ov.sent.contains_key(packet_index) {
                            ov.sent[packet_index]
                        } else {
                            Seq::<EventView>::empty()
                        };
                        assert(events_view(entry@) =~= prior.push(event@));
                        assert(self@.sent =~= ov.sent.insert(packet_index, prior.push(event@)));
                        assert(self@.outgoing =~= ov.outgoing.drop_first());
                        assert(self@ == ov.popped(packet_index));
                    }
                } else {
                    proof {
                        assert(self@.outgoing =~= old(self)@.outgoing.drop_first());
                        assert(self@ == old(self)@.popped(packet_index));
                    }
                }
                Some(event)
            },
            None => None,
        }
    }

    /// Reverses the most recent pop for `packet_index`: for a guaranteed
    /// event the most recently recorded ledger entry for that index is
    /// popped off (the entry is removed entirely once empty), and in every
    /// case a duplicate of the given event is pushed to the *front* of the
    /// outgoing queue, restoring transmission order. The caller must use
    /// this only to undo its own immediately preceding pop for that index.
    pub fn unpop_outgoing_event(&mut self, packet_index: u16, event: &Event)
        ensures
            final(self)@ == old(self)@.unpopped(packet_index, event@),
    {
        if event.is_guaranteed() {
            match self.sent_events.remove(&packet_index) {
                Some(list) => {
                    let mut list = list;
                    if list.len() > 0 {
                        list.pop();
                    }
                    if list.len() > 0 {
                        self.sent_events.insert(packet_index, list);
                        proof {
                            let prior = old(self)@.sent[packet_index];
                            assert(events_view(list@) =~= prior.drop_last());
                            assert(self@.sent =~= old(self)@.sent.insert(
                                packet_index,
                                prior.drop_last(),
                            ));
                        }
                    } else {
                        proof {
                            assert(self@.sent =~= old(self)@.sent.remove(packet_index));
                        }
                    }
                },
                None => {
                    proof {
                        assert(self@.sent =~= old(self)@.sent);
                    }
                },
            }
        }
        self.queued_outgoing_events.push_front(event.duplicate());
        proof {
            assert(self@.outgoing =~= seq![event@] + old(self)@.outgoing);
            assert(self@ == old(self)@.unpopped(packet_index, event@));
        }
    }

    /// Discards the ledger entry for `packet_index`, if any: delivery
    /// means every guaranteed event recorded there reached the peer, so
    /// nothing is requeued. Idempotent — a missing entry is a no-op.
    pub fn notify_packet_delivered(&mut self, packet_index: u16)
        ensures
            final(self)@ == old(self)@.delivered(packet_index),
    {
        self.sent_events.remove(&packet_index);
        proof {
            assert(self@.sent =~= old(self)@.sent.remove(packet_index));
            assert(self@ == old(self)@.delivered(packet_index));
        }
    }

    /// Requeues every event the ledger recorded for `packet_index` — each
    /// as a duplicate, appended to the *back* of the outgoing queue, so
    /// that lost events are retransmitted after, not ahead of, currently
    /// queued ones — then removes the entry. Idempotent — a missing entry
    /// is a no-op.
    pub fn notify_packet_dropped(&mut self, packet_index: u16)
        ensures
            final(self)@ == old(self)@.dropped(packet_index),
    {
        match self.sent_events.remove(&packet_index) {
            Some(dropped_events_list) => {
                proof {
                    assert(self@.sent =~= old(self)@.sent.remove(packet_index));
                    assert(events_view(dropped_events_list@) == old(self)@.sent[packet_index]);
                }
                let mut i: usize = 0;
                while i < dropped_events_list.len()
                    invariant
                        0 <= i <= dropped_events_list.len(),
                        self@.outgoing =~= old(self)@.outgoing + events_view(
                            dropped_events_list@,
                        ).take(i as int),
                        self@.incoming == old(self)@.incoming,
                        self@.sent =~= old(self)@.sent.remove(packet_index),
                    decreases dropped_events_list.len() - i,
                {
                    self.queued_outgoing_events.push_back(dropped_events_list[i].duplicate());
                    proof {
                        let lv = events_view(dropped_events_list@);
                        assert(lv.take(i + 1) =~= lv.take(i as int).push(lv[i as int]));
                        assert(self@.outgoing =~= (old(self)@.outgoing + lv.take(i as int)).push(
                            lv[i as int],
                        ));
                        assert(self@.outgoing =~= old(self)@.outgoing + lv.take(i + 1));
                    }
                    i = i + 1;
                }
                proof {
                    assert(events_view(dropped_events_list@).take(
                        dropped_events_list@.len() as int,
                    ) =~= events_view(dropped_events_list@));
                    assert(self@.outgoing =~= old(self)@.outgoing
                        + old(self)@.sent[packet_index]);
                    assert(self@ == old(self)@.dropped(packet_index));
                }
            },
            None => {
                proof {
                    assert(self@.sent =~= old(self)@.sent);
                    assert(self@ == old(self)@.dropped(packet_index));
                }
            },
        }
    }

    /// Whether any decoded event awaits consumption by the application.
    pub fn has_incoming_events(&self) -> (r: bool)
        ensures
            r == (self@.incoming.len() != 0),
    {
        self.queued_incoming_events.len() != 0
    }

    /// Removes and returns the front of the incoming queue, or nothing if
    /// the queue is empty; inbound events need no acknowledgment
    /// bookkeeping at this layer.
    pub fn pop_incoming_event(&mut self) -> (r: Option<Event>)
        ensures
            r is None <==> old(self)@.incoming.len() == 0,
            r is None ==> final(self)@ == old(self)@,
            r matches Some(e) ==> e@ == old(self)@.incoming[0] && final(self)@ == old(
                self,
            )@.incoming_popped(),
    {
        let r = self.queued_incoming_events.pop_front();
        proof {
            if old(self).queued_incoming_events@.len() > 0 {
                assert(self@.incoming =~= old(self)@.incoming.drop_first());
            }
            assert(self@.sent =~= old(self)@.sent);
        }
        r
    }

    /// Decodes a received packet's event section, starting at the
    /// reader's cursor: one count byte, then per record a big-endian
    /// 16-bit type identifier, a one-byte payload length, and that many
    /// payload bytes. Every record the manifest recognizes becomes an
    /// event appended to the incoming queue, in record order; an
    /// unregistered type identifier skips the record but still consumes
    /// its bytes, so later records stay aligned. A record that would read
    /// past the end of the buffer fails the whole packet closed: nothing
    /// is enqueued and the reader is left where it started.
    #[verifier::loop_isolation(false)]
    pub fn process_data(&mut self, reader: &mut PacketReader, manifest: &Manifest) -> (r: Result<
        (),
        FramingError,
    >)
        requires
            old(reader).wf(),
        ensures
            final(reader)@.buffer == old(reader)@.buffer,
            final(reader).wf(),
            final(self)@.outgoing == old(self)@.outgoing,
            final(self)@.sent == old(self)@.sent,
            (match spec_parse_section(old(reader)@.buffer, old(reader)@.cursor, manifest@) {
                Some(p) => r is Ok && final(self)@.incoming == old(self)@.incoming + p.0
                    && final(reader)@.cursor == p.1,
                None => r is Err && final(self)@ == old(self)@ && final(reader)@ == old(reader)@,
            }),
    {
        let start = reader.position();
        let ghost buf = reader@.buffer;
        let ghost full = spec_parse_section(buf, start as int, manifest@);
        let event_count = match reader.read_u8() {
            Some(c) => c,
            None => { return Err(FramingError) },
        };
        let mut decoded: Vec<Event> = Vec::new();
        let mut x: u8 = 0;
        while x < event_count
            invariant
                reader.wf(),
                reader@.buffer == buf,
                x <= event_count,
                (match spec_parse_records(
                    buf,
                    reader@.cursor,
                    (event_count - x) as nat,
                    manifest@,
                ) {
                    Some(rest) => full matches Some(p) && p.0 == events_view(decoded@) + rest.0
                        && p.1 == rest.1,
                    None => full is None,
                }),
            decreases event_count - x,
        {
            let ghost pos0 = reader@.cursor;
            let type_id = match reader.read_u16_be() {
                Some(v) => v,
                None => {
                    reader.set_position(start);
                    return Err(FramingError)
                },
            };
            let payload_length = match reader.read_u8() {
                Some(v) => v,
                None => {
                    reader.set_position(start);
                    return Err(FramingError)
                },
            };
            let payload = match reader.read_bytes(payload_length as usize) {
                Some(p) => p,
                None => {
                    reader.set_position(start);
                    return Err(FramingError)
                },
            };
            match manifest.create_event(type_id, payload) {
                Some(new_event) => {
                    let ghost before = decoded@;
                    decoded.push(new_event);
                    proof {
                        assert(events_view(decoded@) + spec_parse_records(
                            buf,
                            reader@.cursor,
                            (event_count - x - 1) as nat,
                            manifest@,
                        )->Some_0.0 =~= events_view(before) + (seq![new_event@]
                            + spec_parse_records(
                            buf,
                            reader@.cursor,
                            (event_count - x - 1) as nat,
                            manifest@,
                        )->Some_0.0));
                    }
                },
                None => {},
            }
            x = x + 1;
        }
        proof {
            assert(spec_parse_records(buf, reader@.cursor, 0, manifest@) == Some(
                (Seq::<EventView>::empty(), reader@.cursor),
            ));
            assert(full matches Some(p) ==> p.0 == events_view(decoded@) + Seq::<
                EventView,
            >::empty() && events_view(decoded@) + Seq::<EventView>::empty() =~= events_view(
                decoded@,
            ));
        }
        let mut i: usize = 0;
        while i < decoded.len()
            invariant
                i <= decoded.len(),
                self@.incoming =~= old(self)@.incoming + events_view(decoded@).take(i as int),
                self@.outgoing == old(self)@.outgoing,
                self@.sent == old(self)@.sent,
            decreases decoded.len() - i,
        {
            self.queued_incoming_events.push_back(decoded[i].duplicate());
            proof {
                let dv = events_view(decoded@);
                assert(dv.take(i + 1) =~= dv.take(i as int).push(dv[i as int]));
                assert(self@.incoming =~= (old(self)@.incoming + dv.take(i as int)).push(
                    dv[i as int],
                ));
                assert(self@.incoming =~= old(self)@.incoming + dv.take(i + 1));
                assert(self@.sent =~= old(self)@.sent);
            }
            i = i + 1;
        }
        proof {
            assert(events_view(decoded@).take(decoded@.len() as int) =~= events_view(decoded@));
        }
        Ok(())
    }
}

/// Law: a guaranteed event never silently vanishes. Popping the front of
/// the outgoing queue for a packet index and then learning that the
/// packet was dropped puts exactly that event back at the end of the
/// outgoing queue — after whatever the ledger already recorded for that
/// index — and leaves no ledger entry behind, so a later pop re-observes
/// it exactly once. For an index with no prior entry, the queue is
/// exactly the old queue without its front, plus that one event.
pub proof fn lemma_guaranteed_redelivery(m: EventManagerView, idx: u16)
    requires
        m.outgoing.len() > 0,
        m.outgoing[0].guaranteed,
    ensures
        ({
            let prior = if m.sent.contains_key(idx) {
                m.sent[idx]
            } else {
                Seq::<EventView>::empty()
            };
            m.popped(idx).dropped(idx).outgoing == m.outgoing.drop_first() + prior.push(
                m.outgoing[0],
            )
        }),
        m.popped(idx).dropped(idx).sent == m.sent.remove(idx),
        m.popped(idx).dropped(idx).incoming == m.incoming,
        !m.sent.contains_key(idx) ==> m.popped(idx).dropped(idx).outgoing
            == m.outgoing.drop_first().push(m.outgoing[0]) && m.popped(idx).dropped(idx).sent
            == m.sent,
{
    let e = m.outgoing[0];
    let prior = if m.sent.contains_key(idx) {
        m.sent[idx]
    } else {
        Seq::<EventView>::empty()
    };
    let m1 = m.popped(idx);
    assert(m1.sent[idx] == prior.push(e));
    assert(m1.dropped(idx).sent =~= m.sent.remove(idx));
    if !m.sent.contains_key(idx) {
        assert(m.outgoing.drop_first() + prior.push(e) =~= m.outgoing.drop_first().push(e));
        assert(m.sent.remove(idx) =~= m.sent);
    }
}

/// Law: delivery is final. Once a packet index has been notified as
/// delivered, a loss notification for the same index is a no-op, so
/// nothing is requeued twice.
pub proof fn lemma_delivery_finality(m: EventManagerView, idx: u16)
    ensures
        m.delivered(idx).dropped(idx) == m.delivered(idx),
{
    assert(!m.delivered(idx).sent.contains_key(idx));
}

/// Law: a best-effort event is never retried. Popping a best-effort
/// event records nothing in the ledger, so a loss notification for a
/// packet index with no other recorded events does not put it back into
/// the outgoing queue.
pub proof fn lemma_best_effort_not_retried(m: EventManagerView, idx: u16)
    requires
        m.outgoing.len() > 0,
        !m.outgoing[0].guaranteed,
        !m.sent.contains_key(idx),
    ensures
        m.popped(idx).sent == m.sent,
        m.popped(idx).dropped(idx) == m.popped(idx),
        m.popped(idx).dropped(idx).outgoing == m.outgoing.drop_first(),
{
}

/// Law: unpop restores transmission order. After popping two events in
/// order for a fresh packet index and unpopping the second, that second
/// event stands at the front of the outgoing queue again, and the ledger
/// entry for the index reflects only the first event — and only if that
/// first event was guaranteed.
pub proof fn lemma_unpop_restores_order(m: EventManagerView, idx: u16)
    requires
        m.outgoing.len() >= 2,
        !m.sent.contains_key(idx),
    ensures
        ({
            let e1 = m.outgoing[0];
            let e2 = m.outgoing[1];
            let m3 = m.popped(idx).popped(idx).unpopped(idx, e2);
            &&& m3.outgoing == seq![e2] + m.outgoing.subrange(2, m.outgoing.len() as int)
            &&& m3.outgoing[0] == e2
            &&& m3.sent == (if e1.guaranteed {
                m.sent.insert(idx, seq![e1])
            } else {
                m.sent
            })
            &&& m3.incoming == m.incoming
        }),
{
    let e1 = m.outgoing[0];
    let e2 = m.outgoing[1];
    let m1 = m.popped(idx);
    let m2 = m1.popped(idx);
    let m3 = m2.unpopped(idx, e2);
    assert(m1.outgoing[0] == e2);
    assert(m3.outgoing =~= seq![e2] + m.outgoing.subrange(2, m.outgoing.len() as int));
    if e1.guaranteed {
        assert(m1.sent[idx] =~= seq![e1]);
        if e2.guaranteed {
            assert(m2.sent[idx] =~= seq![e1, e2]);
            assert(m2.sent[idx].drop_last() =~= seq![e1]);
            assert(m3.sent =~= m.sent.insert(idx, seq![e1]));
        } else {
            assert(m3.sent =~= m.sent.insert(idx, seq![e1]));
        }
    } else {
        assert(m1.sent == m.sent);
        if e2.guaranteed {
            assert(m2.sent[idx] =~= seq![e2]);
            assert(m2.sent[idx].drop_last().len() == 0);
            assert(m3.sent =~= m.sent);
        } else {
            assert(m3.sent =~= m.sent);
        }
    }
}

/// Law: notifications are idempotent. Notifying the same packet index
/// as delivered twice, or as dropped twice, ends in the same state as
/// notifying it once.
pub proof fn lemma_notifications_idempotent(m: EventManagerView, idx: u16)
    ensures
        m.delivered(idx).delivered(idx) == m.delivered(idx),
        m.dropped(idx).dropped(idx) == m.dropped(idx),
{
    assert(m.delivered(idx).delivered(idx).sent =~= m.delivered(idx).sent);
    assert(!m.dropped(idx).sent.contains_key(idx));
}

/// Law: every operation preserves the ledger invariant — each ledger
/// entry is non-empty and records guaranteed events only; best-effort
/// events never enter the ledger.
pub proof fn lemma_operations_preserve_wf(m: EventManagerView, idx: u16, e: EventView)
    requires
        m.wf(),
    ensures
        m.queued(e).wf(),
        m.outgoing.len() > 0 ==> m.popped(idx).wf(),
        m.unpopped(idx, e).wf(),
        m.delivered(idx).wf(),
        m.dropped(idx).wf(),
        m.incoming.len() > 0 ==> m.incoming_popped().wf(),
{
    if m.outgoing.len() > 0 {
        let m1 = m.popped(idx);
        assert forall|j: u16| #[trigger] m1.sent.contains_key(j) implies m1.sent[j].len() > 0 && (
        forall|i: int| 0 <= i < m1.sent[j].len() ==> (#[trigger] m1.sent[j][i]).guaranteed) by {
            if m.outgoing[0].guaranteed && j == idx {
                let prior = if m.sent.contains_key(idx) {
                    m.sent[idx]
                } else {
                    Seq::<EventView>::empty()
                };
                assert(m1.sent[j] == prior.push(m.outgoing[0]));
                assert forall|i: int| 0 <= i < m1.sent[j].len() implies (
                #[trigger] m1.sent[j][i]).guaranteed by {
                    if i < prior.len() {
                        assert(m1.sent[j][i] == m.sent[idx][i]);
                    }
                }
            }
        }
    }
    let mu = m.unpopped(idx, e);
    assert forall|j: u16| #[trigger] mu.sent.contains_key(j) implies mu.sent[j].len() > 0 && (
    forall|i: int| 0 <= i < mu.sent[j].len() ==> (#[trigger] mu.sent[j][i]).guaranteed) by {
        if e.guaranteed && m.sent.contains_key(idx) && j == idx {
            assert forall|i: int| 0 <= i < mu.sent[j].len() implies (
            #[trigger] mu.sent[j][i]).guaranteed by {
                assert(mu.sent[j][i] == m.sent[idx][i]);
            }
        }
    }
}

} // verus!
