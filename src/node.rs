//! The node engine: sends frames, receives and dispatches them (acknowledge,
//! forward, deliver, suppress duplicates), and drives retries. Bytes come in
//! and go out as plain byte runs; what the node has to report comes back as
//! events.
use vstd::prelude::*;
use crate::frame::{self, Frame, ReadError, EncodeError, MTU, wire_frame, parse_spec};
use crate::kiss::{self, kiss_frame, decode_spec};
use crate::prn_id::{self, PRN};
use crate::prn_table::{self, Table};
use crate::routing::{self, ParseError, ADDRESS_SEPARATOR, BROADCAST_ADDRESS};
use crate::tx_queue::{self, Queue, QEntry, QEvent, QueueError, QueueEvent, find_prn, events_view, event_payload};

verus! {

/// Why a frame was not sent.
#[derive(Debug, PartialEq, Eq, Structural)]
pub enum SendError {
    /// The route could not be built.
    Frame(EncodeError),
    /// The transmit queue is full.
    Enqueue(QueueError),
    /// The payload is larger than the MTU.
    Truncated,
}

/// Why receiving stopped.
#[derive(Debug, PartialEq, Eq, Structural)]
pub enum RecvError {
    /// A frame for this station to forward has a route that cannot move on.
    Routing(ParseError),
}

/// What receiving reports.
pub enum NodeEvent {
    /// A frame that ends here, seen for the first time, or an acknowledgement
    /// for one of this station's frames.
    Recv { frame: Frame, payload: Vec<u8> },
    /// Any frame that was read, whoever it is for.
    Observe { frame: Frame, payload: Vec<u8> },
    /// A frame that could not be read; its bytes were skipped.
    Dropped { error: ReadError },
}

/// What receiving reports, as the contracts see it.
pub enum NEvent {
    Recv(u32, Seq<u32>, Seq<u8>),
    Observe(u32, Seq<u32>, Seq<u8>),
    Dropped(ReadError),
}

impl View for NodeEvent {
    type V = NEvent;

    open spec fn view(&self) -> NEvent {
        match self {
            NodeEvent::Recv { frame, payload } => NEvent::Recv(
                frame.prn,
                frame.address_route@,
                payload@,
            ),
            NodeEvent::Observe { frame, payload } => NEvent::Observe(
                frame.prn,
                frame.address_route@,
                payload@,
            ),
            NodeEvent::Dropped { error } => NEvent::Dropped(*error),
        }
    }
}

/// The views of a run of events.
pub open spec fn node_events_view(v: Seq<NodeEvent>) -> Seq<NEvent> {
    Seq::new(v.len(), |i: int| v[i]@)
}

/// The state of a node as the contracts see it.
pub struct NodeView {
    /// This station's callsign.
    pub callsign: u32,
    /// Register state of the identifier generator.
    pub prn: u32,
    /// Frames waiting for acknowledgement.
    pub queue: Seq<QEntry>,
    /// Identifiers of frames received, by slot.
    pub seen: Seq<u32>,
    /// Slot that the next received identifier takes.
    pub seen_next: int,
}

/// A relay node.
pub struct Node {
    prn: PRN,
    recv_prn_table: Table,
    tx_queue: Queue,
    recv_buffer: Vec<u8>,
}

impl Node {
    pub closed spec fn view(&self) -> NodeView {
        NodeView {
            callsign: self.prn.callsign,
            prn: self.prn.current,
            queue: self.tx_queue.entries(),
            seen: self.recv_prn_table.slots(),
            seen_next: self.recv_prn_table.next_slot(),
        }
    }

    /// Bytes received but not yet read as a frame.
    pub closed spec fn buffer(&self) -> Seq<u8> {
        self.recv_buffer@
    }

    pub closed spec fn wf(&self) -> bool {
        self.recv_prn_table.wf() && self.tx_queue.wf()
    }
}

/// A node for station `callsign`: identifiers start from the register's start
/// value, nothing is queued or seen, the receive buffer is empty.
pub fn new(callsign: u32) -> (r: Node)
    ensures
        r.wf(),
        r.view() == (NodeView {
            callsign,
            prn: prn_id::PRN_START,
            queue: Seq::empty(),
            seen: Seq::new(1000, |i: int| 0u32),
            seen_next: 0,
        }),
        r.buffer() == Seq::<u8>::empty(),
{
    let r = Node {
        prn: prn_id::new(callsign),
        recv_prn_table: prn_table::new(),
        tx_queue: tx_queue::new(),
        recv_buffer: Vec::new(),
    };
    assert(r.buffer() =~= Seq::<u8>::empty());
    r
}

/// `s` followed by the separator and `callsign`: the route of a frame sent
/// by `callsign` along forward path `s`.
pub open spec fn send_route(s: Seq<u32>, callsign: u32) -> Seq<u32> {
    s.push(ADDRESS_SEPARATOR).push(callsign)
}

/// Serializes a frame and wraps it for the wire, appending it to `tx`.
fn emit(tx: &mut Vec<u8>, header: &Frame, payload: &[u8])
    requires
        payload@.len() <= tx_queue::BLOCK_SIZE,
    ensures
        final(tx)@ == old(tx)@ + kiss_frame(wire_frame(header.prn, header.address_route@, payload@), 0),
{
    let mut packet: Vec<u8> = Vec::new();
    frame::to_bytes(&mut packet, header, Some(payload));
    kiss::encode(packet.as_slice(), tx, 0);
}

impl Node {
    /// The identifier of the last frame built.
    pub fn current_prn(&self) -> (r: u32)
        ensures
            r == self.view().prn ^ self.view().callsign,
    {
        self.prn.current()
    }

    /// This station's callsign.
    pub fn callsign(&self) -> (r: u32)
        ensures
            r == self.view().callsign,
    {
        self.prn.callsign
    }

    /// Number of frames waiting for acknowledgement.
    pub fn pending_packets(&self) -> (r: usize)
        requires
            self.wf(),
        ensures
            r == self.view().queue.len(),
    {
        self.tx_queue.pending_packets()
    }

    /// Number of bytes received but not yet read as a frame.
    pub fn buffered_bytes(&self) -> (r: usize)
        ensures
            r == self.buffer().len(),
    {
        self.recv_buffer.len()
    }

    /// Sends `in_data` along forward path `addr_route`: builds a header with
    /// the next identifier and the route `addr_route`, separator, own
    /// callsign; queues it for retry; appends its KISS frame to `tx`. Returns
    /// the identifier.
    pub fn send(&mut self, in_data: &[u8], addr_route: &[u32], tx: &mut Vec<u8>) -> (r: Result<u32, SendError>)
        requires
            old(self).wf(),
        ensures
            final(self).wf(),
            final(self).buffer() == old(self).buffer(),
            final(self).view().callsign == old(self).view().callsign,
            final(self).view().seen == old(self).view().seen,
            final(self).view().seen_next == old(self).view().seen_next,
            in_data@.len() > MTU ==> r == Err::<u32, SendError>(SendError::Truncated) && final(self).view()
                == old(self).view() && final(tx)@ == old(tx)@,
            in_data@.len() <= MTU && addr_route@.len() > 15 ==> r == Err::<u32, SendError>(
                SendError::Frame(EncodeError::AddressTooLong),
            ) && final(self).view() == old(self).view() && final(tx)@ == old(tx)@,
            in_data@.len() <= MTU && addr_route@.len() <= 15 ==> {
                let v = old(self).view();
                let prn = prn_id::lfsr_step(v.prn);
                let id = prn ^ v.callsign;
                let route = routing::pad_route(send_route(addr_route@, v.callsign));
                &&& final(self).view().prn == prn
                &&& (tx_queue::total_bytes(v.queue) + in_data@.len() > tx_queue::BLOCK_SIZE ==> {
                    &&& r == Err::<u32, SendError>(SendError::Enqueue(QueueError::Discarded))
                    &&& final(self).view().queue == v.queue
                    &&& final(tx)@ == old(tx)@
                })
                &&& (tx_queue::total_bytes(v.queue) + in_data@.len() <= tx_queue::BLOCK_SIZE ==> {
                    &&& r == Ok::<u32, SendError>(id)
                    &&& final(self).view().queue.len() == v.queue.len() + 1
                    &&& final(self).view().queue.drop_last() == v.queue
                    &&& final(self).view().queue.last().frame.prn == id
                    &&& final(self).view().queue.last().frame.address_route@ == route
                    &&& final(self).view().queue.last().payload == in_data@
                    &&& final(self).view().queue.last().next_send == tx_queue::RETRY_DELAY_MS
                    &&& final(self).view().queue.last().retry_count == 0
                    &&& final(tx)@ == old(tx)@ + kiss_frame(wire_frame(id, route, in_data@), 0)
                })
            },
    {
        if in_data.len() > MTU {
            return Err(SendError::Truncated);
        }
        if addr_route.len() > 15 {
            return Err(SendError::Frame(EncodeError::AddressTooLong));
        }
        let mut final_route: Vec<u32> = Vec::new();
        let mut i: usize = 0;
        while i < addr_route.len()
            invariant
                i <= addr_route@.len() <= 15,
                final_route@ == addr_route@.take(i as int),
            decreases addr_route@.len() - i,
        {
            final_route.push(addr_route[i]);
            assert(addr_route@.take(i + 1) =~= addr_route@.take(i as int).push(addr_route@[i as int]));
            i = i + 1;
        }
        assert(addr_route@.take(addr_route@.len() as int) =~= addr_route@);
        final_route.push(ADDRESS_SEPARATOR);
        final_route.push(self.prn.callsign);
        let ghost fr = final_route@;
        assert(fr == send_route(addr_route@, self.prn.callsign));
        assert(fr[fr.len() - 2] == ADDRESS_SEPARATOR);
        assert(frame::has_separator(fr));
        assert(fr.len() <= 17);
        let header = match frame::new_header(&mut self.prn, final_route.as_slice()) {
            Ok(h) => h,
            Err(e) => {
                return Err(SendError::Frame(e));
            },
        };
        match self.tx_queue.enqueue(header, in_data) {
            Ok(()) => {},
            Err(e) => {
                return Err(SendError::Enqueue(e));
            },
        }
        emit(tx, &header, in_data);
        Ok(header.prn)
    }
}

/// What the node does with a frame it read: the state after, the events and
/// the bytes sent, or the error. A frame whose current hop is this station
/// (or the broadcast address) and whose next slot is the separator ends here:
/// without payload it acknowledges one of this station's frames, which leaves
/// the queue; with payload it is acknowledged along the reversed route
/// (unless it came by broadcast) and delivered only the first time its
/// identifier is seen. A frame for this station with hops left is passed on
/// with the route advanced, never acknowledged. Every frame read is
/// observed, after any delivery.
pub open spec fn dispatch_spec(v: NodeView, prn: u32, route: Seq<u32>, p: Seq<u8>) -> Result<
    (NodeView, Seq<NEvent>, Seq<u8>),
    RecvError,
> {
    let obs = NEvent::Observe(prn, route, p);
    let rcv = NEvent::Recv(prn, route, p);
    if route[0] == v.callsign || route[0] == BROADCAST_ADDRESS {
        if route[1] == ADDRESS_SEPARATOR {
            if p.len() == 0 {
                let q = if find_prn(v.queue, prn) < v.queue.len() {
                    v.queue.remove(find_prn(v.queue, prn))
                } else {
                    v.queue
                };
                Ok((NodeView { queue: q, ..v }, seq![rcv, obs], Seq::<u8>::empty()))
            } else {
                let ack = if route[0] == BROADCAST_ADDRESS {
                    Seq::<u8>::empty()
                } else {
                    kiss_frame(wire_frame(prn, routing::reverse_spec(route), Seq::<u8>::empty()), 0)
                };
                if v.seen.contains(prn) {
                    Ok((v, seq![obs], ack))
                } else {
                    Ok(
                        (
                            NodeView {
                                seen: v.seen.update(v.seen_next, prn),
                                seen_next: (v.seen_next + 1) % 1000,
                                ..v
                            },
                            seq![rcv, obs],
                            ack,
                        ),
                    )
                }
            }
        } else if routing::can_advance(route) {
            Ok(
                (
                    v,
                    seq![obs],
                    kiss_frame(wire_frame(prn, routing::advanced(route, v.callsign), p), 0),
                ),
            )
        } else {
            Err(RecvError::Routing(ParseError::BadFormat))
        }
    } else {
        Ok((v, seq![obs], Seq::<u8>::empty()))
    }
}

/// What receiving does with buffered bytes `buf`: the state after, the
/// events, the bytes sent, the bytes left over and the error that stopped it,
/// if any. Frames are taken off the front one at a time, each one's bytes
/// drained whether or not it could be read; one that cannot be read is
/// reported and skipped.
pub open spec fn recv_spec(v: NodeView, buf: Seq<u8>) -> (
    NodeView,
    Seq<NEvent>,
    Seq<u8>,
    Seq<u8>,
    Option<RecvError>,
)
    decreases buf.len(),
{
    match decode_spec(buf) {
        None => (v, Seq::<NEvent>::empty(), Seq::<u8>::empty(), buf, None),
        Some((_, n, data)) => if 1 <= n <= buf.len() {
            let rest = buf.subrange(n as int, buf.len() as int);
            match parse_spec(data) {
                Err(e) => {
                    let r = recv_spec(v, rest);
                    (r.0, seq![NEvent::Dropped(e)] + r.1, r.2, r.3, r.4)
                },
                Ok((prn, route, p)) => match dispatch_spec(v, prn, route, p) {
                    Err(e) => (v, Seq::<NEvent>::empty(), Seq::<u8>::empty(), rest, Some(e)),
                    Ok((v1, ev1, tx1)) => {
                        let r = recv_spec(v1, rest);
                        (r.0, ev1 + r.1, tx1 + r.2, r.3, r.4)
                    },
                },
            }
        } else {
            (v, Seq::<NEvent>::empty(), Seq::<u8>::empty(), buf, None)
        },
    }
}

/// A copy of `s`.
fn copy_bytes(s: &[u8]) -> (r: Vec<u8>)
    ensures
        r@ == s@,
{
    let mut r: Vec<u8> = Vec::new();
    let mut i: usize = 0;
    while i < s.len()
        invariant
            i <= s@.len(),
            r@ == s@.take(i as int),
        decreases s@.len() - i,
    {
        r.push(s[i]);
        assert(s@.take(i + 1) =~= s@.take(i as int).push(s@[i as int]));
        i = i + 1;
    }
    assert(s@.take(s@.len() as int) =~= s@);
    r
}

/// Drops the first `n` bytes of `v`.
fn drain_front(v: &mut Vec<u8>, n: usize)
    requires
        n <= old(v)@.len(),
    ensures
        final(v)@ == old(v)@.subrange(n as int, old(v)@.len() as int),
{
    let mut rest: Vec<u8> = Vec::new();
    let mut i: usize = n;
    while i < v.len()
        invariant
            n <= i <= v@.len(),
            v@ == old(v)@,
            rest@ == v@.subrange(n as int, i as int),
        decreases v@.len() - i,
    {
        rest.push(v[i]);
        assert(v@.subrange(n as int, i + 1) =~= v@.subrange(n as int, i as int).push(v@[i as int]));
        i = i + 1;
    }
    *v = rest;
}

proof fn lemma_push_events(v: Seq<NodeEvent>, e: NodeEvent)
    ensures
        node_events_view(v.push(e)) == node_events_view(v).push(e@),
{
    assert(node_events_view(v.push(e)) =~= node_events_view(v).push(e@));
}

impl Node {
    /// Handles one frame that was read, as `dispatch_spec` says.
    fn dispatch_recv(
        &mut self,
        tx: &mut Vec<u8>,
        packet: &Frame,
        payload: &[u8],
        events: &mut Vec<NodeEvent>,
    ) -> (r: Result<(), RecvError>)
        requires
            old(self).wf(),
            payload@.len() <= MTU,
        ensures
            final(self).wf(),
            final(self).buffer() == old(self).buffer(),
            match dispatch_spec(old(self).view(), packet.prn, packet.address_route@, payload@) {
                Ok((v, ev, txb)) => r is Ok && final(self).view() == v && final(tx)@ == old(tx)@ + txb
                    && node_events_view(final(events)@) == node_events_view(old(events)@) + ev,
                Err(e) => r == Err::<(), RecvError>(e) && final(self).view() == old(self).view()
                    && final(tx)@ == old(tx)@ && final(events)@ == old(events)@,
            },
    {
        let ghost ev0 = node_events_view(events@);
        let ghost v0 = self.view();
        let route = &packet.address_route;
        let obs = NodeEvent::Observe { frame: *packet, payload: copy_bytes(payload) };
        if routing::is_destination(route, self.prn.callsign) {
            if routing::final_addr(route) {
                if payload.len() == 0 {
                    self.tx_queue.ack_recv(packet.prn);
                    let rcv = NodeEvent::Recv { frame: *packet, payload: copy_bytes(payload) };
                    proof {
                        lemma_push_events(events@, rcv);
                        lemma_push_events(events@.push(rcv), obs);
                    }
                    events.push(rcv);
                    events.push(obs);
                    assert(node_events_view(events@) =~= ev0 + seq![rcv@, obs@]);
                } else {
                    if !routing::is_broadcast(route) {
                        let ack = frame::new_ack(packet.prn, routing::reverse(route));
                        let empty: Vec<u8> = Vec::new();
                        emit(tx, &ack, empty.as_slice());
                    }
                    if self.recv_prn_table.contains(packet.prn) {
                        proof {
                            lemma_push_events(events@, obs);
                        }
                        events.push(obs);
                        assert(node_events_view(events@) =~= ev0 + seq![obs@]);
                    } else {
                        self.recv_prn_table.add(packet.prn);
                        let rcv = NodeEvent::Recv { frame: *packet, payload: copy_bytes(payload) };
                        proof {
                            lemma_push_events(events@, rcv);
                            lemma_push_events(events@.push(rcv), obs);
                        }
                        events.push(rcv);
                        events.push(obs);
                        assert(node_events_view(events@) =~= ev0 + seq![rcv@, obs@]);
                    }
                }
            } else {
                let advanced = match routing::advance(route, self.prn.callsign) {
                    Ok(a) => a,
                    Err(e) => {
                        return Err(RecvError::Routing(e));
                    },
                };
                let routed = Frame { prn: packet.prn, address_route: advanced };
                emit(tx, &routed, payload);
                proof {
                    lemma_push_events(events@, obs);
                }
                events.push(obs);
                assert(node_events_view(events@) =~= ev0 + seq![obs@]);
            }
        } else {
            proof {
                lemma_push_events(events@, obs);
            }
            events.push(obs);
            assert(node_events_view(events@) =~= ev0 + seq![obs@]);
        }
        Ok(())
    }
}

/// Number of deliveries among `evs`.
pub open spec fn count_recv(evs: Seq<NEvent>) -> nat
    decreases evs.len(),
{
    if evs.len() == 0 {
        0
    } else {
        (if evs[0] is Recv {
            1nat
        } else {
            0nat
        }) + count_recv(evs.drop_first())
    }
}

/// A data frame that ends at this station and has not been seen, handled
/// twice in a row, is delivered once and acknowledged both times, with the
/// same acknowledgement.
pub proof fn lemma_duplicate_suppression(v: NodeView, prn: u32, route: Seq<u32>, p: Seq<u8>)
    requires
        route.len() == 17,
        route[0] == v.callsign,
        route[0] != BROADCAST_ADDRESS,
        route[1] == ADDRESS_SEPARATOR,
        p.len() > 0,
        0 <= v.seen_next < v.seen.len(),
        !v.seen.contains(prn),
    ensures
        ({
            let first = dispatch_spec(v, prn, route, p);
            &&& first is Ok
            &&& {
                let (v1, ev1, tx1) = first.unwrap();
                let second = dispatch_spec(v1, prn, route, p);
                &&& second is Ok
                &&& {
                    let (v2, ev2, tx2) = second.unwrap();
                    &&& count_recv(ev1) == 1
                    &&& count_recv(ev2) == 0
                    &&& tx1.len() > 0
                    &&& tx2 == tx1
                }
            }
        }),
{
    let (v1, ev1, tx1) = dispatch_spec(v, prn, route, p).unwrap();
    assert(v1.seen[v.seen_next] == prn);
    assert(v1.seen.contains(prn));
    let (v2, ev2, tx2) = dispatch_spec(v1, prn, route, p).unwrap();
    let obs = NEvent::Observe(prn, route, p);
    let rcv = NEvent::Recv(prn, route, p);
    assert(seq![rcv, obs].drop_first() =~= seq![obs]);
    assert(seq![obs].drop_first() =~= Seq::<NEvent>::empty());
    assert(seq![obs][0] == obs);
    assert(seq![rcv, obs][0] == rcv);
    assert(count_recv(Seq::<NEvent>::empty()) == 0);
    assert(count_recv(seq![obs]) == 0);
    assert(count_recv(seq![rcv, obs]) == 1);
    assert(kiss_frame(wire_frame(prn, routing::reverse_spec(route), Seq::<u8>::empty()), 0).len() > 0);
}

proof fn lemma_recv_one_frame(v: NodeView, prn: u32, route: Seq<u32>, p: Seq<u8>)
    requires
        route.len() == 17,
        frame::canonical_route(route),
        p.len() <= MTU,
        dispatch_spec(v, prn, route, p) is Ok,
    ensures
        ({
            let (v1, ev1, tx1) = dispatch_spec(v, prn, route, p).unwrap();
            recv_spec(v, kiss_frame(wire_frame(prn, route, p), 0)) == (
                v1,
                ev1,
                tx1,
                Seq::<u8>::empty(),
                None::<RecvError>,
            )
        }),
{
    let w = wire_frame(prn, route, p);
    let b = kiss_frame(w, 0);
    assert(0u8 & 0x0Fu8 == 0u8) by (bit_vector);
    kiss::lemma_decode_encoded(w, 0, Seq::<u8>::empty());
    assert(b + Seq::<u8>::empty() =~= b);
    frame::lemma_wire_round_trip(prn, route, p);
    let (v1, ev1, tx1) = dispatch_spec(v, prn, route, p).unwrap();
    let rest = b.subrange(b.len() as int, b.len() as int);
    assert(rest =~= Seq::<u8>::empty());
    assert(kiss::first_fend_from(rest, 0) == 0);
    assert(decode_spec(rest) is None);
    assert(decode_spec(b) == Some((0u8 & 0x0Fu8, b.len(), w)));
    assert(recv_spec(v1, rest) == (v1, Seq::<NEvent>::empty(), Seq::<u8>::empty(), rest, None::<RecvError>));
    assert(ev1 + Seq::<NEvent>::empty() =~= ev1);
    assert(tx1 + Seq::<u8>::empty() =~= tx1);
}

/// A data frame that ends at this station and has not been seen, received
/// twice as one KISS frame on an empty receive buffer, is delivered once and
/// acknowledged both times with the same acknowledgement; nothing stays
/// buffered and receiving does not stop.
pub proof fn lemma_recv_duplicate_suppression(v: NodeView, prn: u32, route: Seq<u32>, p: Seq<u8>)
    requires
        route.len() == 17,
        frame::canonical_route(route),
        route[0] == v.callsign,
        route[0] != BROADCAST_ADDRESS,
        route[1] == ADDRESS_SEPARATOR,
        0 < p.len() <= MTU,
        0 <= v.seen_next < v.seen.len(),
        !v.seen.contains(prn),
    ensures
        ({
            let b = kiss_frame(wire_frame(prn, route, p), 0);
            let r1 = recv_spec(v, b);
            let r2 = recv_spec(r1.0, b);
            &&& r1.4 is None && r2.4 is None
            &&& r1.3.len() == 0 && r2.3.len() == 0
            &&& count_recv(r1.1) == 1
            &&& count_recv(r2.1) == 0
            &&& r1.2.len() > 0
            &&& r2.2 == r1.2
        }),
{
    lemma_duplicate_suppression(v, prn, route, p);
    lemma_recv_one_frame(v, prn, route, p);
    let (v1, ev1, tx1) = dispatch_spec(v, prn, route, p).unwrap();
    lemma_recv_one_frame(v1, prn, route, p);
}

/// The outcome of `recv_spec` as an exec result.
pub open spec fn recv_result(e: Option<RecvError>) -> Result<(), RecvError> {
    match e {
        None => Ok(()),
        Some(e) => Err(e),
    }
}

impl Node {
    /// Takes in bytes from the transport and reads every complete frame in
    /// the receive buffer, as `recv_spec` says: acknowledgements and
    /// forwarded frames are appended to `tx`, events to `events`. Bytes of an
    /// incomplete frame stay buffered for the next call.
    #[verifier::rlimit(60)]
    pub fn recv(&mut self, input: &[u8], tx: &mut Vec<u8>, events: &mut Vec<NodeEvent>) -> (r: Result<(), RecvError>)
        requires
            old(self).wf(),
        ensures
            final(self).wf(),
            ({
                let res = recv_spec(old(self).view(), old(self).buffer() + input@);
                &&& final(self).view() == res.0
                &&& node_events_view(final(events)@) == node_events_view(old(events)@) + res.1
                &&& final(tx)@ == old(tx)@ + res.2
                &&& final(self).buffer() == res.3
                &&& r == recv_result(res.4)
            }),
    {
        let ghost v0 = self.view();
        let ghost b0 = self.recv_buffer@ + input@;
        let ghost ev0 = node_events_view(events@);
        let ghost tx0 = tx@;
        let mut i: usize = 0;
        while i < input.len()
            invariant
                i <= input@.len(),
                self.recv_buffer@ == old(self).recv_buffer@ + input@.take(i as int),
                self.view() == v0,
                self.wf(),
            decreases input@.len() - i,
        {
            self.recv_buffer.push(input[i]);
            assert(input@.take(i + 1) =~= input@.take(i as int).push(input@[i as int]));
            i = i + 1;
        }
        assert(input@.take(input@.len() as int) =~= input@);
        let ghost mut evs = Seq::<NEvent>::empty();
        let ghost mut txs = Seq::<u8>::empty();
        proof {
            let r0 = recv_spec(v0, b0);
            assert(evs + r0.1 =~= r0.1);
            assert(txs + r0.2 =~= r0.2);
        }
        loop
            invariant
                self.wf(),
                ev0 == node_events_view(old(events)@),
                tx0 == old(tx)@,
                v0 == old(self).view(),
                b0 == old(self).buffer() + input@,
                node_events_view(events@) == ev0 + evs,
                tx@ == tx0 + txs,
                ({
                    let now = recv_spec(self.view(), self.recv_buffer@);
                    recv_spec(v0, b0) == (now.0, evs + now.1, txs + now.2, now.3, now.4)
                }),
            ensures
                self.wf(),
                ({
                    let res = recv_spec(v0, b0);
                    &&& self.view() == res.0
                    &&& node_events_view(events@) == ev0 + res.1
                    &&& tx@ == tx0 + res.2
                    &&& self.recv_buffer@ == res.3
                    &&& res.4 is None
                }),
            decreases self.recv_buffer@.len(),
        {
            let ghost buf = self.recv_buffer@;
            let ghost vnow = self.view();
            let mut scratch: Vec<u8> = Vec::new();
            let decoded = kiss::decode(self.recv_buffer.as_slice(), &mut scratch);
            match decoded {
                None => {
                    proof {
                        let now = recv_spec(vnow, buf);
                        assert(now.1 =~= Seq::<NEvent>::empty());
                        assert(evs + now.1 =~= evs);
                        assert(txs + now.2 =~= txs);
                    }
                    break;
                },
                Some(d) => {
                    proof {
                        kiss::lemma_decode_reads(buf);
                    }
                    let ghost rest = buf.subrange(d.bytes_read as int, buf.len() as int);
                    let parsed = frame::from_bytes(scratch.as_slice());
                    drain_front(&mut self.recv_buffer, d.bytes_read);
                    match parsed {
                        Err(e) => {
                            let ev = NodeEvent::Dropped { error: e };
                            proof {
                                lemma_push_events(events@, ev);
                            }
                            events.push(ev);
                            proof {
                                let now = recv_spec(vnow, rest);
                                assert(evs + (seq![NEvent::Dropped(e)] + now.1) =~= (evs + seq![
                                    NEvent::Dropped(e),
                                ]) + now.1);
                                evs = evs + seq![NEvent::Dropped(e)];
                                assert(node_events_view(events@) =~= ev0 + evs);
                            }
                        },
                        Ok((f, p)) => {
                            let ghost ev_before = node_events_view(events@);
                            let ghost tx_before = tx@;
                            let res = self.dispatch_recv(tx, &f, p.as_slice(), events);
                            match res {
                                Err(e) => {
                                    proof {
                                        assert(evs + Seq::<NEvent>::empty() =~= evs);
                                        assert(txs + Seq::<u8>::empty() =~= txs);
                                        let dd = decode_spec(buf).unwrap();
                                        assert(scratch@ =~= dd.2);
                                    }
                                    return Err(e);
                                },
                                Ok(()) => {
                                    proof {
                                        let dres = dispatch_spec(
                                            vnow,
                                            f.prn,
                                            f.address_route@,
                                            p@,
                                        ).unwrap();
                                        let now = recv_spec(self.view(), rest);
                                        assert(evs + (dres.1 + now.1) =~= (evs + dres.1) + now.1);
                                        assert(txs + (dres.2 + now.2) =~= (txs + dres.2) + now.2);
                                        evs = evs + dres.1;
                                        txs = txs + dres.2;
                                        assert(node_events_view(events@) =~= ev0 + evs);
                                        assert(tx@ =~= tx0 + txs);
                                    }
                                },
                            }
                        },
                    }
                },
            }
        }
        Ok(())
    }
}

/// The bytes that a run of queue events sends: each retried frame again.
pub open spec fn retry_bytes(evs: Seq<QEvent>) -> Seq<u8>
    decreases evs.len(),
{
    if evs.len() == 0 {
        Seq::<u8>::empty()
    } else {
        retry_bytes(evs.drop_last()) + match evs.last() {
            QEvent::Retry(f, p, _) => kiss_frame(wire_frame(f.prn, f.address_route@, p), 0),
            QEvent::Expire(_, _) => Seq::<u8>::empty(),
        }
    }
}

impl Node {
    /// Runs the retry timers down by `elapsed_ms`, as the transmit queue's
    /// `tick` does, and sends every retried frame again on `tx`. Returns what
    /// happened to each frame, in order.
    pub fn tick(&mut self, tx: &mut Vec<u8>, elapsed_ms: usize) -> (events: Vec<QueueEvent>)
        requires
            old(self).wf(),
        ensures
            final(self).wf(),
            final(self).buffer() == old(self).buffer(),
            final(self).view() == (NodeView { queue: final(self).view().queue, ..old(self).view() }),
            exists|js: Seq<usize>|
                {
                    &&& js.len() == old(self).view().queue.len()
                    &&& forall|i: int| 0 <= i < js.len() ==> js[i] < tx_queue::RETRY_DELAY_MS
                    &&& (final(self).view().queue, events_view(events@)) == tx_queue::tick_spec(
                        old(self).view().queue,
                        tx_queue::total_bytes(old(self).view().queue),
                        elapsed_ms,
                        js,
                    )
                },
            final(tx)@ == old(tx)@ + retry_bytes(events_view(events@)),
    {
        let ghost q0 = self.tx_queue.entries();
        let events = self.tx_queue.tick(elapsed_ms);
        let ghost js = choose|js: Seq<usize>|
            {
                &&& js.len() == q0.len()
                &&& forall|i: int| 0 <= i < js.len() ==> js[i] < tx_queue::RETRY_DELAY_MS
                &&& (self.tx_queue.entries(), events_view(events@)) == tx_queue::tick_spec(
                    q0,
                    tx_queue::total_bytes(q0),
                    elapsed_ms,
                    js,
                )
            };
        let ghost tx0 = tx@;
        let mut i: usize = 0;
        while i < events.len()
            invariant
                i <= events@.len(),
                tx@ == tx0 + retry_bytes(events_view(events@.take(i as int))),
                forall|k: int|
                    0 <= k < events@.len() ==> event_payload(#[trigger] events@[k]@).len()
                        <= tx_queue::BLOCK_SIZE,
            decreases events@.len() - i,
        {
            let ghost before = events_view(events@.take(i as int));
            assert(events_view(events@.take(i + 1)).drop_last() =~= before);
            assert(events_view(events@.take(i + 1)).last() == events@[i as int]@);
            match &events[i] {
                QueueEvent::Retry { frame, payload, next_retry_ms: _ } => {
                    assert(event_payload(events@[i as int]@).len() <= tx_queue::BLOCK_SIZE);
                    emit(tx, frame, payload.as_slice());
                },
                QueueEvent::Expire { frame: _, payload: _ } => {},
            }
            i = i + 1;
        }
        assert(events@.take(events@.len() as int) =~= events@);
        assert(self.view().queue == self.tx_queue.entries());
        assert(old(self).view().queue == q0);
        events
    }
}

} // verus!
