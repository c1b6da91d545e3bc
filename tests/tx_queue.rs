use nbplink::address;
use nbplink::frame::{self, Frame};
use nbplink::prn_id::{self, PRN};
use nbplink::routing::ADDRESS_SEPARATOR;
use nbplink::tx_queue::{
    self, QueueError, QueueEvent, BLOCK_SIZE, RETRY_COUNT, RETRY_DELAY_MS,
};

fn create_sample_packet(prn: &mut PRN, size: u32) -> (Frame, Vec<u8>) {
    let data = (0..size).map(|value| value as u8).collect::<Vec<u8>>();
    let callsign = prn.callsign;

    let header = frame::new_header(prn, &[callsign, ADDRESS_SEPARATOR, callsign]).unwrap();

    (header, data)
}

fn create_packet_with<T>(prn: &mut PRN, data: T) -> (Frame, Vec<u8>)
where
    T: Iterator<Item = u8>,
{
    let data = data.collect::<Vec<u8>>();
    let callsign = prn.callsign;

    let header = frame::new_header(prn, &[callsign, ADDRESS_SEPARATOR, callsign]).unwrap();

    (header, data)
}

fn count(events: &[QueueEvent]) -> (usize, usize) {
    let retries = events.iter().filter(|e| matches!(e, QueueEvent::Retry { .. })).count();
    let expires = events.iter().filter(|e| matches!(e, QueueEvent::Expire { .. })).count();
    (retries, expires)
}

fn local_prn() -> PRN {
    prn_id::new(address::encode(['K', 'I', '7', 'E', 'S', 'T', '0']).unwrap())
}

#[test]
fn tx_queue_test_enqueue() {
    let mut prn = local_prn();
    let (header, data) = create_sample_packet(&mut prn, 256);

    let mut queue = tx_queue::new();
    match queue.enqueue(header, &data) {
        Ok(()) => (),
        Err(_) => assert!(false),
    };

    assert_eq!(data.len(), queue.queued_bytes());
    let stored = queue.packet_data(0);
    for (i, byte) in data.iter().enumerate() {
        assert_eq!(*byte, stored[i]);
    }

    assert_eq!(queue.pending_packets(), 1);
    let pending = queue.pending_packet(0);
    assert_eq!(pending.data_offset, 0);
    assert_eq!(pending.retry_count, 0);
    assert_eq!(pending.next_send, RETRY_DELAY_MS);
    assert_eq!(pending.packet, header);
}

#[test]
fn tx_queue_test_discard() {
    let mut prn = local_prn();
    let mut queue = tx_queue::new();

    for i in 0..50 {
        let iter = (0..1024).map(|_| i as u8);
        let (header, data) = create_packet_with(&mut prn, iter);

        match queue.enqueue(header, &data) {
            Err(_) => assert!(false),
            Ok(()) => (),
        }
    }

    {
        let (header, data) = create_sample_packet(&mut prn, 1);
        match queue.enqueue(header, &data) {
            Ok(()) => assert!(false),
            Err(e) => match e {
                QueueError::Discarded => (),
            },
        }
    }

    let first_prn = queue.pending_packet(0).packet.prn;
    queue.ack_recv(first_prn);

    {
        for _ in 0..4 {
            let (header, data) = create_sample_packet(&mut prn, 256);
            match queue.enqueue(header, &data) {
                Ok(()) => (),
                Err(_) => assert!(false),
            }
        }
    }

    {
        let (header, data) = create_sample_packet(&mut prn, 1);
        match queue.enqueue(header, &data) {
            Ok(()) => assert!(false),
            Err(_) => (),
        }
    }
}

#[test]
fn tx_queue_test_empty_tick() {
    let mut queue = tx_queue::new();

    let events = queue.tick(0);
    let (retry_count, discard_count) = count(&events);

    assert_eq!(retry_count, 0);
    assert_eq!(discard_count, 0);
    assert_eq!(queue.pending_packets(), 0);
}

#[test]
fn tx_queue_test_tick_lifetime() {
    let mut prn = local_prn();
    let mut queue = tx_queue::new();
    let (header, data) = create_sample_packet(&mut prn, 1);

    let header_prn = header.prn;

    let mut retry_count = 0;
    let mut discard_count = 0;

    assert!(queue.enqueue(header, &data).is_ok());

    fn calc_retry(count: usize) -> usize {
        if count == 0 {
            RETRY_DELAY_MS
        } else {
            (1 + count) * RETRY_DELAY_MS + calc_retry(count - 1)
        }
    }

    for _ in 0..(calc_retry(RETRY_COUNT) / 50) + 1 {
        for event in queue.tick(50) {
            match event {
                QueueEvent::Retry { frame, .. } => {
                    assert_eq!(frame.prn, header_prn);
                    retry_count += 1;
                }
                QueueEvent::Expire { frame, .. } => {
                    assert_eq!(frame.prn, header_prn);
                    discard_count += 1;
                }
            }
        }
    }

    assert_eq!(retry_count, RETRY_COUNT);
    assert_eq!(discard_count, 1);
}

#[test]
fn test_discard_mixed() {
    let mut prn = local_prn();
    let packets = (0..5).map(|_| create_sample_packet(&mut prn, 8)).collect::<Vec<_>>();

    let mut queue = tx_queue::new();

    for &(ref header, ref data) in &packets {
        queue.enqueue(*header, data).unwrap();
    }

    assert_eq!(queue.queued_bytes(), queue.pending_packets() * 8);

    for i in 0..queue.pending_packets() {
        assert_eq!(queue.pending_packet(i).data_offset, i * 8);
    }

    let ack_prn = queue.pending_packet(1).packet.prn;
    queue.ack_recv(ack_prn);

    assert_eq!(queue.queued_bytes(), queue.pending_packets() * 8);

    for i in 0..queue.pending_packets() {
        assert_eq!(queue.pending_packet(i).data_offset, i * 8);
    }
}

#[test]
fn test_multi_ack() {
    let mut prn = local_prn();
    let discard = (0..5).map(|_| create_sample_packet(&mut prn, 8)).collect::<Vec<_>>();
    let ack = (0..10).map(|_| create_sample_packet(&mut prn, 16)).collect::<Vec<_>>();

    let mut queue = tx_queue::new();

    for &(ref header, ref data) in &discard {
        queue.enqueue(*header, data).unwrap();
    }

    for &(ref header, ref data) in &ack {
        queue.enqueue(*header, data).unwrap();
    }

    let mut discard_count = 0;

    for &(ref header, _) in &ack {
        queue.ack_recv(header.prn);

        let events = queue.tick(1);
        discard_count += count(&events).1;
    }

    for _ in 0..RETRY_COUNT + 1 {
        for event in queue.tick(RETRY_DELAY_MS * (1 + RETRY_COUNT)) {
            if let QueueEvent::Expire { frame, payload } = event {
                assert!(discard.iter().any(|&(ref discard, _)| discard.prn == frame.prn));
                assert_eq!(payload.len(), 8);
                discard_count += 1;
            }
        }
    }

    assert_eq!(discard_count, discard.len());
}

#[test]
fn test_congestion() {
    let mut prn = local_prn();
    let mut queue = tx_queue::new();

    let packets = (0..40).map(|i| create_packet_with(&mut prn, (0..1024).map(move |_| i as u8))).collect::<Vec<_>>();

    for (header, data) in packets {
        queue.enqueue(header, &data).unwrap();
    }

    let (retry_count, discard_count) = count(&queue.tick(RETRY_DELAY_MS));

    assert_eq!(retry_count, 40);

    assert_eq!(discard_count, 5);
}

#[test]
fn queue_boundedness_after_ack() {
    let mut prn = local_prn();
    let mut queue = tx_queue::new();
    let (h1, d1) = create_sample_packet(&mut prn, (BLOCK_SIZE - 100) as u32);
    queue.enqueue(h1, &d1).unwrap();
    let (h2, d2) = create_sample_packet(&mut prn, 101);
    assert_eq!(queue.enqueue(h2, &d2), Err(QueueError::Discarded));
    let (h3, d3) = create_sample_packet(&mut prn, 100);
    assert_eq!(queue.enqueue(h3, &d3), Ok(()));
    assert!(queue.ack_recv(h1.prn));
    assert!(!queue.ack_recv(h1.prn));
    assert_eq!(queue.enqueue(h2, &d2), Ok(()));
    assert_eq!(queue.queued_bytes(), 201);
}

#[test]
fn tick_with_fixed_jitter() {
    let mut prn = local_prn();
    let mut queue = tx_queue::new();
    let (h, d) = create_sample_packet(&mut prn, 3);
    queue.enqueue(h, &d).unwrap();
    let events = queue.tick_with(100, &[7]);
    assert!(events.is_empty());
    assert_eq!(queue.pending_packet(0).next_send, 400);
    let events = queue.tick_with(400, &[7]);
    match &events[..] {
        [QueueEvent::Retry { frame, payload, next_retry_ms }] => {
            assert_eq!(*frame, h);
            assert_eq!(payload, &d);
            assert_eq!(*next_retry_ms, RETRY_DELAY_MS + 7);
        }
        _ => assert!(false),
    }
    assert_eq!(queue.pending_packet(0).retry_count, 1);
    assert_eq!(queue.pending_packet(0).next_send, 507);
}

#[test]
fn random_retry_delay_stays_in_range() {
    let mut prn = local_prn();
    let mut queue = tx_queue::new();
    let (h, d) = create_sample_packet(&mut prn, 3);
    queue.enqueue(h, &d).unwrap();
    for round in 1..=RETRY_COUNT {
        let events = queue.tick(10_000);
        match &events[..] {
            [QueueEvent::Retry { next_retry_ms, .. }] => {
                assert!(*next_retry_ms >= RETRY_DELAY_MS);
                assert!(*next_retry_ms < (1 + round) * RETRY_DELAY_MS);
            }
            _ => assert!(false),
        }
    }
    assert_eq!(count(&queue.tick(10_000)), (0, 1));
    assert_eq!(queue.pending_packets(), 0);
}
