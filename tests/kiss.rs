use nbplink::kiss::{
    decode, encode, encode_cmd, CMD_DATA, CMD_RETURN, CMD_TX_DELAY, FEND, FESC, TFEND, TFESC,
};

fn test_encode_decode_single(expected: Vec<u8>) {
    let mut data = vec![];
    let mut decoded = vec![];

    encode(&expected, &mut data, 5);
    match decode(&data, &mut decoded) {
        Some(result) => {
            assert_eq!(result.port, 5);
            assert_eq!(result.bytes_read, data.len());
            assert_eq!(expected, decoded);
        }
        None => assert!(false),
    }
}

fn test_decode_single(data: &mut Vec<u8>, expected: &[u8], port: u8) {
    let mut decoded = vec![];

    match decode(data, &mut decoded) {
        Some(result) => {
            assert_eq!(result.port, port);
            assert_eq!(expected, decoded.as_slice());
            assert_eq!(result.payload_size, expected.len());

            data.drain(0..result.bytes_read);
        }
        None => assert!(false),
    }
}

#[test]
fn test_encode() {
    {
        let mut data = vec![];
        encode(&[b'T', b'E', b'S', b'T'], &mut data, 0);
        assert_eq!(data, vec!(FEND, CMD_DATA, b'T', b'E', b'S', b'T', FEND));
    }

    {
        let mut data = vec![];
        encode(&[b'H', b'E', b'L', b'L', b'O'], &mut data, 5);
        assert_eq!(data, vec!(FEND, CMD_DATA | 0x50, b'H', b'E', b'L', b'L', b'O', FEND));
    }

    {
        let mut data = vec![];
        encode(&[FEND, FESC], &mut data, 0);
        assert_eq!(data, vec!(FEND, CMD_DATA, FESC, TFEND, FESC, TFESC, FEND));
    }

    {
        let mut data = vec![];
        encode_cmd(&mut data, CMD_TX_DELAY, 4, 0);
        assert_eq!(data, vec!(FEND, CMD_TX_DELAY, 0x04, FEND));
    }

    {
        let mut data = vec![];
        encode_cmd(&mut data, CMD_TX_DELAY, 4, 6);
        assert_eq!(data, vec!(FEND, CMD_TX_DELAY | 0x60, 0x04, FEND));
    }

    {
        let mut data = vec![];
        encode_cmd(&mut data, CMD_RETURN, 4, 2);
        assert_eq!(data, vec!(FEND, CMD_RETURN, FEND));
    }
}

#[test]
fn test_encode_decode() {
    test_encode_decode_single(vec![b'T', b'E', b'S', b'T']);
    test_encode_decode_single(vec![b'H', b'E', b'L', b'L', b'O']);
    test_encode_decode_single(vec![FEND, FESC]);
}

#[test]
fn test_empty_frame() {
    let mut data = vec![];
    let expected: Vec<u8> = vec![b'T', b'E', b'S', b'T'];

    data.push(FEND);
    data.push(FEND);
    data.push(FEND);

    encode(&expected, &mut data, 0);

    let mut decoded = vec![];
    match decode(&data, &mut decoded) {
        Some(result) => {
            assert_eq!(result.bytes_read, data.len());
            assert_eq!(result.payload_size, expected.len());
            assert_eq!(result.port, 0);

            assert!(expected.iter().cloned().eq(decoded.into_iter()));
        }
        None => assert!(false),
    }
}

#[test]
fn test_multi_frame() {
    let expected_one: Vec<u8> = vec![b'T', b'E', b'S', b'T'];
    let expected_two: Vec<u8> = vec![b'H', b'E', b'L', b'L', b'O'];
    let expected_three = [FEND, FESC];

    let mut data = vec![];

    encode(&expected_one, &mut data, 0);
    encode(&expected_two, &mut data, 0);
    encode(&expected_three, &mut data, 0);

    test_decode_single(&mut data, &expected_one, 0);
    test_decode_single(&mut data, &expected_two, 0);
    test_decode_single(&mut data, &expected_three, 0);
}

#[test]
fn decode_skips_leading_noise() {
    let mut data = vec![1, 2, 3];
    encode(&[9, 8], &mut data, 3);
    let mut decoded = vec![];
    let r = decode(&data, &mut decoded).unwrap();
    assert_eq!(r.port, 3);
    assert_eq!(r.bytes_read, data.len());
    assert_eq!(decoded, vec![9, 8]);
}

#[test]
fn decode_needs_closing_delimiter() {
    let mut decoded = vec![7];
    assert!(decode(&[FEND, CMD_DATA, 0x12], &mut decoded).is_none());
    assert!(decode(&[1, 2, 3], &mut decoded).is_none());
    assert!(decode(&[FEND, FEND, FEND], &mut decoded).is_none());
    assert_eq!(decoded, vec![7]);
}

#[test]
fn decode_drops_unknown_escape() {
    let mut decoded = vec![];
    let r = decode(&[FEND, 0x00, 0x41, FESC, 0x42, 0x43, FEND, 0x55], &mut decoded).unwrap();
    assert_eq!(decoded, vec![0x41, 0x43]);
    assert_eq!(r.bytes_read, 7);
    assert_eq!(r.payload_size, 2);
}

#[test]
fn decode_appends_after_existing_bytes() {
    let mut decoded = vec![1];
    let r = decode(&[FEND, 0x00, 0x12, FEND], &mut decoded).unwrap();
    assert_eq!(r.bytes_read, 4);
    assert_eq!(decoded, vec![1, 0x12]);
}

#[test]
fn port_twelve_command_byte_is_a_delimiter() {
    let mut data = vec![];
    encode(&[1, 2], &mut data, 12);
    assert_eq!(data[1], FEND);
    let mut decoded = vec![];
    let r = decode(&data, &mut decoded).unwrap();
    assert_eq!(r.port, 0);
    assert_eq!(decoded, vec![2]);
}
