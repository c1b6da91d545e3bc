use nbplink::address;
use nbplink::frame::{
    from_bytes, new_ack, new_header, to_bytes, EncodeError, ReadError, MAX_ACK_SIZE, MAX_PACKET_SIZE, MTU,
};
use nbplink::prn_id;
use nbplink::routing::{self, ADDRESS_SEPARATOR, BROADCAST_ADDRESS};

fn serialize_packet(dest: &[u32], payload: &[u8]) -> Vec<u8> {
    let mut prn = prn_id::new(address::encode(['K', 'I', '7', 'E', 'S', 'T', '0']).unwrap());
    let data_packet = new_header(&mut prn, dest).unwrap();

    let mut data = vec![];
    let count = to_bytes(&mut data, &data_packet, Some(payload));

    assert_eq!(count, 4 + 4 * (1 + dest.len()) + payload.len() + 2);

    data
}

fn serialize_deserialize_packet(dest: &[u32], payload: &[u8]) {
    let data = serialize_packet(dest, payload);

    match from_bytes(&data) {
        Ok((header, read_payload)) => {
            assert_eq!(read_payload.len(), payload.len());
            for (i, byte) in payload.iter().cloned().enumerate() {
                assert_eq!(read_payload[i], byte);
            }

            for (i, test_addr) in dest.iter().cloned().enumerate() {
                assert_eq!(header.address_route[i], test_addr);
            }
        }
        _ => assert!(false),
    }
}

fn gen_addr(num: u8) -> [char; 7] {
    if num > 9 {
        ['T', 'E', 'S', 'T', address::symbol_to_character(num / 10), address::symbol_to_character(num % 10), '0']
    } else {
        ['T', 'E', 'S', 'T', address::symbol_to_character(num), '0', '0']
    }
}

#[test]
fn frame_serialize_ack_test() {
    let mut prn = prn_id::new(address::encode(['K', 'I', '7', 'E', 'S', 'T', '0']).unwrap());
    let ack = new_ack(prn.next(), routing::gen_route(&[prn.callsign, ADDRESS_SEPARATOR, prn.callsign]));

    let mut data = vec![];

    let count = to_bytes(&mut data, &ack, None);
    assert_eq!(count, 4 + 4 * 4 + 2);

    match from_bytes(&data) {
        Ok((header, payload)) => {
            assert_eq!(header.prn, ack.prn);
            assert_eq!(header.address_route, ack.address_route);
            assert_eq!(payload.len(), 0);
        }
        _ => assert!(false),
    }
}

#[test]
fn frame_serialize_data_test() {
    let dest_addr = address::encode(['K', 'F', '7', 'S', 'J', 'K', '0']).unwrap();
    let src_addr = address::encode(['K', 'I', '7', 'E', 'S', 'T', '0']).unwrap();

    let addr: Vec<u32> = vec![dest_addr, ADDRESS_SEPARATOR, src_addr];

    let packet = [1, 2, 3, 4, 5];
    serialize_deserialize_packet(&addr, &packet);
}

#[test]
fn frame_test_addr_permuatations() {
    for size in 1..15 {
        let src_addr = address::encode(['K', 'I', '7', 'E', 'S', 'T', '0']).unwrap();

        for i in 0..size {
            let pre_sep = (0..i).map(|i| gen_addr(i)).filter_map(|addr| address::encode(addr));
            let post_sep = (0..size - i).rev().map(|i| gen_addr(i)).filter_map(|addr| address::encode(addr));

            let addr: Vec<u32> = std::iter::once(src_addr)
                .chain(pre_sep)
                .chain(std::iter::once(ADDRESS_SEPARATOR))
                .chain(post_sep)
                .collect();

            let packet = [1, 2, 3, 4, 5];
            serialize_deserialize_packet(&addr, &packet);
        }
    }
}

#[test]
fn frame_test_payload_permutations() {
    for size in 0..MTU + 1 {
        let dest_addr = address::encode(['K', 'F', '7', 'S', 'J', 'K', '0']).unwrap();
        let src_addr = address::encode(['K', 'I', '7', 'E', 'S', 'T', '0']).unwrap();

        let addr: Vec<u32> = vec![dest_addr, ADDRESS_SEPARATOR, src_addr];

        let packet: Vec<u8> = (0..size).map(|value| value as u8).collect();

        serialize_deserialize_packet(&addr, &packet);
    }
}

#[test]
fn frame_test_corrupt_bit() {
    let dest_addr = address::encode(['K', 'F', '7', 'S', 'J', 'K', '0']).unwrap();
    let src_addr = address::encode(['K', 'I', '7', 'E', 'S', 'T', '0']).unwrap();

    let addr: Vec<u32> = vec![dest_addr, ADDRESS_SEPARATOR, src_addr];

    let packet: Vec<u8> = (0..256).map(|value| value as u8).collect();

    let mut data = serialize_packet(&addr, &packet);

    for byte in 0..256 {
        for bit in 0..7 {
            let mask = (1 as u8) << bit;
            data[byte] ^= mask;

            match from_bytes(&data) {
                Err(ReadError::CRCFailure) => (),
                _ => assert!(false),
            }

            data[byte] ^= mask;
        }
    }
}

#[test]
fn test_max_size() {
    let mut prn = prn_id::new(address::encode(['K', 'I', '7', 'E', 'S', 'T', '0']).unwrap());
    let data = (0..1500).map(|x| x as u8).collect::<Vec<_>>();
    let route = (0..15)
        .map(|_| BROADCAST_ADDRESS)
        .chain(std::iter::once(ADDRESS_SEPARATOR))
        .chain(std::iter::once(prn.callsign))
        .collect::<Vec<u32>>();
    let header = new_header(&mut prn, &route).unwrap();

    let mut packet = vec![];

    to_bytes(&mut packet, &header, Some(&data));

    assert_eq!(MAX_PACKET_SIZE, packet.len());

    let ack_header = new_ack(prn.next(), routing::gen_route(&route));
    packet.drain(..);
    to_bytes(&mut packet, &ack_header, None);

    assert_eq!(MAX_ACK_SIZE, packet.len());
}

#[test]
fn frame_wire_layout() {
    let header = new_ack(0x01020304, routing::gen_route(&[0x0A0B0C0D, ADDRESS_SEPARATOR, 0x11121314]));
    let mut data = vec![];
    to_bytes(&mut data, &header, Some(&[0xAA]));
    assert_eq!(
        &data[..21],
        &[1, 2, 3, 4, 0x0A, 0x0B, 0x0C, 0x0D, 0, 0, 0, 0, 0x11, 0x12, 0x13, 0x14, 0, 0, 0, 0, 0xAA]
    );
    let crc = nbplink::crc16::calc(&data[..21]);
    assert_eq!(&data[21..], &[(crc >> 8) as u8, crc as u8]);
}

#[test]
fn frame_full_route_without_second_separator() {
    let mut route = [7u32; 17];
    route[3] = ADDRESS_SEPARATOR;
    let header = new_ack(99, route);
    let mut data = vec![];
    to_bytes(&mut data, &header, Some(&[5, 6]));
    assert_eq!(data.len(), 4 + 4 * 18 + 2 + 2);
    let (back, payload) = from_bytes(&data).unwrap();
    assert_eq!(back, header);
    assert_eq!(payload, vec![5, 6]);
}

#[test]
fn frame_parse_errors() {
    assert_eq!(from_bytes(&[]).err(), Some(ReadError::Truncated));
    assert_eq!(from_bytes(&[1, 2, 3, 4, 5, 6, 7]).err(), Some(ReadError::Truncated));

    // Seventeen route words without a second separator, then a non-zero word.
    let mut bad: Vec<u8> = vec![0, 0, 0, 1];
    for _ in 0..18 {
        bad.extend_from_slice(&[0, 0, 0, 9]);
    }
    let crc = nbplink::crc16::calc(&bad);
    bad.push((crc >> 8) as u8);
    bad.push(crc as u8);
    assert_eq!(from_bytes(&bad).err(), Some(ReadError::BadAddress));

    let mut ok = vec![];
    to_bytes(&mut ok, &new_ack(5, routing::gen_route(&[3, ADDRESS_SEPARATOR, 4])), None);
    let last = ok.len() - 1;
    ok[last] ^= 1;
    assert_eq!(from_bytes(&ok).err(), Some(ReadError::CRCFailure));
}

#[test]
fn frame_payload_over_mtu_is_truncated() {
    let header = new_ack(5, routing::gen_route(&[3, ADDRESS_SEPARATOR, 4]));
    let mut data = vec![];
    to_bytes(&mut data, &header, Some(&vec![1u8; MTU + 1]));
    assert_eq!(from_bytes(&data).err(), Some(ReadError::Truncated));
}

#[test]
fn new_header_errors() {
    let mut prn = prn_id::new(1);
    assert_eq!(new_header(&mut prn, &[1, 2, 3]).err(), Some(EncodeError::AddressSeparatorNotFound));
    assert_eq!(new_header(&mut prn, &[1; 18]).err(), Some(EncodeError::AddressTooLong));
    assert_eq!(prn.current, 0xFFFF_FFFF);
    let h = new_header(&mut prn, &[1, 0, 2]).unwrap();
    assert_eq!(h.prn, prn.current());
    assert_eq!(h.address_route, routing::gen_route(&[1, 0, 2]));
}
