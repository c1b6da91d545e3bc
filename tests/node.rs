use nbplink::address;
use nbplink::frame;
use nbplink::kiss;
use nbplink::node::{self, Node, NodeEvent};
use nbplink::prn_id;
use nbplink::routing::{self, ADDRESS_SEPARATOR, BROADCAST_ADDRESS};
use nbplink::tx_queue::{QueueEvent, RETRY_COUNT, RETRY_DELAY_MS};

fn gen_callsign(idx: usize) -> [char; 7] {
    [
        'T',
        'E',
        'S',
        'T',
        address::symbol_to_character((idx / 10) as u8),
        address::symbol_to_character((idx % 10) as u8),
        '0',
    ]
}

fn recvs(events: &[NodeEvent]) -> Vec<(frame::Frame, Vec<u8>)> {
    events
        .iter()
        .filter_map(|e| match e {
            NodeEvent::Recv { frame, payload } => Some((*frame, payload.clone())),
            _ => None,
        })
        .collect()
}

fn observes(events: &[NodeEvent]) -> Vec<(frame::Frame, Vec<u8>)> {
    events
        .iter()
        .filter_map(|e| match e {
            NodeEvent::Observe { frame, payload } => Some((*frame, payload.clone())),
            _ => None,
        })
        .collect()
}

#[test]
fn mod_test_send() {
    let addr = [
        address::encode(['K', 'F', '7', 'S', 'J', 'K', '0']).unwrap(),
        address::encode(['K', 'I', '7', 'E', 'S', 'T', '0']).unwrap(),
    ];

    let mut node = node::new(addr[1]);

    let mut tx: Vec<u8> = vec![];

    node.send(&[0, 1, 2, 3, 4], &addr, &mut tx).unwrap();

    assert!(tx.len() > 0);
}

#[test]
fn mod_test_send_recv() {
    let data = (0..5).map(|x| x as u8).collect::<Vec<_>>();

    let local_addr = address::encode(['K', 'I', '7', 'E', 'S', 'T', '0']).unwrap();
    let remote_addr = address::encode(['K', 'F', '7', 'S', 'J', 'K', '0']).unwrap();

    let mut tx_local = vec![];
    let mut tx_remote = vec![];

    let mut local = node::new(local_addr);
    let mut remote = node::new(remote_addr);

    let prn = local.send(&data, &[remote_addr], &mut tx_local).unwrap();

    let mut events = vec![];
    remote.recv(&tx_local, &mut tx_remote, &mut events).unwrap();
    let received = recvs(&events);
    assert_eq!(received.len(), 1);
    assert!(received[0].1.iter().eq(data.iter()));

    tx_local.drain(..);

    let mut events = vec![];
    local.recv(&tx_remote, &mut tx_local, &mut events).unwrap();
    let mut match_ack = false;
    for (header, payload) in observes(&events) {
        if payload.len() == 0 {
            match_ack = true;
            assert_eq!(prn, header.prn);
            assert_eq!(header.address_route, routing::gen_route(&[local_addr, ADDRESS_SEPARATOR, remote_addr]));
        } else {
            assert!(false);
        }
    }

    assert!(match_ack);
    assert_eq!(local.pending_packets(), 0);
}

fn run_chain(route: &[u32], node_addrs: &[u32], cycles: usize) -> (Vec<Node>, Vec<usize>, Vec<usize>) {
    let mut nodes = node_addrs.iter().map(|a| node::new(*a)).collect::<Vec<_>>();
    let mut obs = vec![0; nodes.len()];
    let mut recv = vec![0; nodes.len()];

    let mut tx_frame = vec![];
    let data = (0..128).map(|x| x as u8).collect::<Vec<u8>>();
    nodes[0].send(&data, route, &mut tx_frame).unwrap();

    let mut rx_frame = tx_frame.clone();
    tx_frame.drain(..);

    for _ in 0..cycles {
        for (i, node) in nodes.iter_mut().enumerate() {
            let mut events = vec![];
            node.recv(&rx_frame, &mut tx_frame, &mut events).unwrap();
            for (_, payload) in recvs(&events) {
                if payload.len() > 0 {
                    recv[i] += 1;
                    assert!((0..128).eq(payload.iter().cloned()));
                }
            }
            for (_, payload) in observes(&events) {
                if payload.len() > 0 {
                    obs[i] += 1;
                    assert!((0..128).eq(payload.iter().cloned()));
                }
            }
        }

        rx_frame = tx_frame.clone();
        tx_frame.drain(..);
    }
    (nodes, obs, recv)
}

#[test]
fn mod_test_route() {
    const CALL_COUNT: usize = 16;

    let route = (0..CALL_COUNT - 1)
        .map(|i| gen_callsign(i))
        .map(|cs| address::encode(cs).unwrap())
        .collect::<Vec<_>>();

    let local = address::encode(['K', 'I', '7', 'E', 'S', 'T', '0']).unwrap();
    let addrs = std::iter::once(local).chain(route.iter().cloned()).collect::<Vec<_>>();

    let (nodes, obs, recv) = run_chain(&route, &addrs, CALL_COUNT);

    for i in 1..CALL_COUNT {
        assert_eq!(obs[i], 15);
        assert_eq!(nodes[i].pending_packets(), 0);
        assert_eq!(nodes[i].buffered_bytes(), 0);
    }

    for i in 1..CALL_COUNT - 1 {
        assert_eq!(recv[i], 0);
    }

    assert_eq!(recv[CALL_COUNT - 1], 1);
}

#[test]
fn mod_test_broadcast_route() {
    const CALL_COUNT: usize = 16;

    let route = (0..CALL_COUNT - 1)
        .map(|i| if i == 1 { BROADCAST_ADDRESS } else { address::encode(gen_callsign(i)).unwrap() })
        .collect::<Vec<_>>();

    let local = address::encode(['K', 'I', '7', 'E', 'S', 'T', '0']).unwrap();
    let addrs = std::iter::once(local)
        .chain((0..CALL_COUNT - 1).map(|i| address::encode(gen_callsign(i)).unwrap()))
        .collect::<Vec<_>>();

    let (nodes, obs, recv) = run_chain(&route, &addrs, CALL_COUNT);

    for i in 1..CALL_COUNT {
        assert_eq!(obs[i], 210);
        assert_eq!(nodes[i].pending_packets(), 0);
        assert_eq!(nodes[i].buffered_bytes(), 0);
    }

    for i in 1..CALL_COUNT - 1 {
        assert_eq!(recv[i], 0);
    }

    assert_eq!(recv[CALL_COUNT - 1], 1);
}

fn get_split(prn: &mut prn_id::PRN) -> Vec<u8> {
    let mut packet = vec![];
    let callsign = prn.current;
    let header = frame::new_header(prn, &[callsign, ADDRESS_SEPARATOR, callsign, callsign]).unwrap();
    let data = (0..32).map(|x| x as u8).collect::<Vec<_>>();
    frame::to_bytes(&mut packet, &header, Some(&data));
    let mut wrapped = vec![];
    kiss::encode(&packet, &mut wrapped, 0);

    wrapped
}

#[test]
fn test_split_path() {
    let mut prn = prn_id::new(address::encode(['K', 'I', '7', 'E', 'S', 'T', '0']).unwrap());

    let mut left_packet = get_split(&mut prn);
    let right_packet = left_packet.clone();

    left_packet.extend_from_slice(&right_packet);

    let mut node = node::new(prn.callsign);

    let mut tx = vec![];
    let mut events = vec![];
    node.recv(&left_packet, &mut tx, &mut events).unwrap();

    let rx_count = recvs(&events).iter().filter(|(_, p)| p.len() > 0).count();
    let obs_count = observes(&events).iter().filter(|(_, p)| p.len() > 0).count();

    assert_eq!(rx_count, 1);
    assert_eq!(obs_count, 2);
}

#[test]
fn test_recv_bad_data() {
    let prn = prn_id::new(address::encode(['K', 'I', '7', 'E', 'S', 'T', '0']).unwrap());

    for i in 0..frame::MTU + 2 {
        let mut node = node::new(prn.callsign);

        let bad_data = (0..i).map(|x| x as u8).collect::<Vec<_>>();
        let mut bad_kiss = vec![];
        kiss::encode(&bad_data, &mut bad_kiss, 0);

        // Unreadable frames are reported and skipped, not returned as errors.
        let mut events = vec![];
        let result = node.recv(&bad_kiss, &mut vec![], &mut events);
        assert!(result.is_ok());
        assert!(matches!(events[..], [NodeEvent::Dropped { .. }]));
        assert_eq!(node.buffered_bytes(), 0);

        let mut packet = vec![];
        node.send(&[0, 1, 2, 3, 4], &[prn.callsign], &mut packet).unwrap();

        let mut events = vec![];
        node.recv(&packet, &mut vec![], &mut events).unwrap();
        let received = recvs(&events);
        assert_eq!(received.len(), 1);
        for i in 0..5 {
            assert_eq!(received[0].1[i], i as u8);
        }
    }
}

#[test]
fn loopback_echo_ack() {
    let n1_addr = address::encode(['K', 'I', '7', 'E', 'S', 'T', '0']).unwrap();
    let n2_addr = address::encode(['K', 'F', '7', 'S', 'J', 'K', '0']).unwrap();
    let mut n1 = node::new(n1_addr);
    let mut n2 = node::new(n2_addr);

    let mut port = nbplink::echo::new();
    let mut out = vec![];
    let prn = n1.send(&[0, 1, 2, 3, 4], &[n2_addr], &mut out).unwrap();
    port.write(&out);

    let mut back = vec![];
    let mut events = vec![];
    loop {
        let chunk = port.read(256);
        if chunk.is_empty() {
            break;
        }
        n2.recv(&chunk, &mut back, &mut events).unwrap();
    }
    let got = recvs(&events);
    assert_eq!(got.len(), 1);
    assert_eq!(got[0].1, vec![0, 1, 2, 3, 4]);
    assert!(!back.is_empty());

    let mut events = vec![];
    n1.recv(&back, &mut vec![], &mut events).unwrap();
    let seen = observes(&events);
    assert_eq!(seen.len(), 1);
    assert_eq!(seen[0].1.len(), 0);
    assert_eq!(seen[0].0.prn, prn);
    assert_eq!(n1.pending_packets(), 0);
}

#[test]
fn duplicate_suppression_acks_twice() {
    let n1_addr = address::encode(['K', 'I', '7', 'E', 'S', 'T', '0']).unwrap();
    let n2_addr = address::encode(['K', 'F', '7', 'S', 'J', 'K', '0']).unwrap();
    let mut n1 = node::new(n1_addr);
    let mut n2 = node::new(n2_addr);

    let mut out = vec![];
    let prn = n1.send(&[0, 1, 2, 3, 4], &[n2_addr], &mut out).unwrap();

    let mut ack1 = vec![];
    let mut events = vec![];
    n2.recv(&out, &mut ack1, &mut events).unwrap();
    let mut ack2 = vec![];
    n2.recv(&out, &mut ack2, &mut events).unwrap();

    assert_eq!(recvs(&events).len(), 1);
    assert_eq!(observes(&events).len(), 2);
    assert!(!ack1.is_empty());
    assert_eq!(ack1, ack2);

    let mut both = ack1.clone();
    both.extend_from_slice(&ack2);
    let mut events = vec![];
    n1.recv(&both, &mut vec![], &mut events).unwrap();
    assert!(observes(&events).iter().all(|(f, p)| f.prn == prn && p.is_empty()));
    assert_eq!(n1.pending_packets(), 0);
}

#[test]
fn retry_and_expire_to_dead_peer() {
    let n1_addr = address::encode(['K', 'I', '7', 'E', 'S', 'T', '0']).unwrap();
    let dead = address::encode(['K', 'F', '7', 'S', 'J', 'K', '0']).unwrap();
    let mut n1 = node::new(n1_addr);
    let mut out = vec![];
    let prn = n1.send(&[9; 10], &[dead], &mut out).unwrap();
    let first = out.clone();

    let mut retries = 0;
    let mut expires = 0;
    for _ in 0..RETRY_COUNT + 1 {
        let mut tx = vec![];
        for event in n1.tick(&mut tx, RETRY_DELAY_MS * (1 + RETRY_COUNT)) {
            match event {
                QueueEvent::Retry { frame, .. } => {
                    assert_eq!(frame.prn, prn);
                    assert_eq!(tx, first);
                    retries += 1;
                }
                QueueEvent::Expire { frame, .. } => {
                    assert_eq!(frame.prn, prn);
                    expires += 1;
                }
            }
        }
    }
    assert_eq!(retries, RETRY_COUNT);
    assert_eq!(expires, 1);
    assert_eq!(n1.pending_packets(), 0);
}

#[test]
fn crc_tamper_then_good_frame() {
    let n1_addr = address::encode(['K', 'I', '7', 'E', 'S', 'T', '0']).unwrap();
    let n2_addr = address::encode(['K', 'F', '7', 'S', 'J', 'K', '0']).unwrap();
    let mut n1 = node::new(n1_addr);
    let mut n2 = node::new(n2_addr);
    let payload = (0..256).map(|x| x as u8).collect::<Vec<u8>>();

    let mut bad = vec![];
    n1.send(&payload, &[n2_addr], &mut bad).unwrap();
    // Flip one bit of a payload byte that is not a KISS special byte.
    bad[40] ^= 0x01;
    let mut good = vec![];
    n1.send(&payload, &[n2_addr], &mut good).unwrap();
    bad.extend_from_slice(&good);

    let mut events = vec![];
    n2.recv(&bad, &mut vec![], &mut events).unwrap();
    assert!(matches!(events[0], NodeEvent::Dropped { error: frame::ReadError::CRCFailure }));
    assert_eq!(recvs(&events).len(), 1);
    assert_eq!(recvs(&events)[0].1, payload);
    assert_eq!(n2.buffered_bytes(), 0);
}

#[test]
fn send_errors() {
    let mut n = node::new(5);
    let mut tx = vec![];
    assert_eq!(n.send(&vec![0; frame::MTU + 1], &[1], &mut tx), Err(node::SendError::Truncated));
    assert_eq!(
        n.send(&[1], &[1; 16], &mut tx),
        Err(node::SendError::Frame(frame::EncodeError::AddressTooLong))
    );
    assert!(tx.is_empty());
    assert!(n.send(&[1], &[1; 15], &mut tx).is_ok());
}

#[test]
fn forward_with_bad_route_is_an_error() {
    let me = 42;
    let mut n = node::new(me);
    let mut route = [7u32; 17];
    route[0] = me;
    let header = frame::new_ack(3, route);
    let mut packet = vec![];
    frame::to_bytes(&mut packet, &header, Some(&[1, 2]));
    let mut wrapped = vec![];
    kiss::encode(&packet, &mut wrapped, 0);
    let mut events = vec![];
    let r = n.recv(&wrapped, &mut vec![], &mut events);
    assert_eq!(r, Err(node::RecvError::Routing(routing::ParseError::BadFormat)));
}

#[test]
fn broadcast_hops_forward_without_ack() {
    let me = address::encode(['K', 'F', '7', 'S', 'J', 'K', '0']).unwrap();
    let src = address::encode(['K', 'I', '7', 'E', 'S', 'T', '0']).unwrap();
    let next = address::encode(['T', 'E', 'S', 'T', '0', '1', '0']).unwrap();
    let payload = [1u8, 2, 3];

    // Broadcast as the final hop: delivered, not acknowledged.
    let mut n = node::new(me);
    let header = frame::new_ack(77, routing::gen_route(&[BROADCAST_ADDRESS, ADDRESS_SEPARATOR, src]));
    let mut packet = vec![];
    frame::to_bytes(&mut packet, &header, Some(&payload));
    let mut wrapped = vec![];
    kiss::encode(&packet, &mut wrapped, 0);
    let mut tx = vec![];
    let mut events = vec![];
    n.recv(&wrapped, &mut tx, &mut events).unwrap();
    assert!(tx.is_empty());
    assert_eq!(recvs(&events).len(), 1);

    // Broadcast as an intermediate hop: passed on with the route advanced.
    let mut n = node::new(me);
    let route = routing::gen_route(&[BROADCAST_ADDRESS, next, ADDRESS_SEPARATOR, src]);
    let header = frame::new_ack(78, route);
    let mut packet = vec![];
    frame::to_bytes(&mut packet, &header, Some(&payload));
    let mut wrapped = vec![];
    kiss::encode(&packet, &mut wrapped, 0);
    let mut tx = vec![];
    let mut events = vec![];
    n.recv(&wrapped, &mut tx, &mut events).unwrap();
    let forwarded = frame::new_ack(78, routing::advance(&route, me).ok().unwrap());
    let mut expected_packet = vec![];
    frame::to_bytes(&mut expected_packet, &forwarded, Some(&payload));
    let mut expected = vec![];
    kiss::encode(&expected_packet, &mut expected, 0);
    assert_eq!(tx, expected);
    assert_eq!(recvs(&events).len(), 0);
}
