//! NBP frames on the wire: identifier, route words up to the end of the
//! return path, payload and CRC-16, every integer big-endian.
use vstd::prelude::*;
use byteorder::{BigEndian, ByteOrder};
use crate::crc16::{self, be_bytes32, be_bytes16, crc_bytes, crc_of, lemma_crc_bytes_append};
use crate::prn_id::{self, PRN};
use crate::routing::{self, Route, ADDRESS_SEPARATOR};

verus! {

/// Largest payload of a frame.
pub const MTU: usize = 1500;

/// Largest acknowledgement: identifier, eighteen route words and CRC.
pub const MAX_ACK_SIZE: usize = 4 + 4 * 18 + 2;

/// Largest frame.
pub const MAX_PACKET_SIZE: usize = 4 + 4 * 18 + 2 + 1500;

/// Header of an NBP frame. A frame without payload is an acknowledgement.
#[derive(Clone, Copy, Debug, PartialEq, Eq)]
pub struct Frame {
    /// Packet identifier.
    pub prn: u32,
    /// Forward and return path.
    pub address_route: Route,
}

/// Why bytes could not be read as a frame.
#[derive(Debug, PartialEq, Eq, Structural)]
pub enum ReadError {
    /// Too few bytes for the frame's layout, or a payload over the MTU.
    Truncated,
    /// Eighteen route words without the closing separator.
    BadAddress,
    /// The checksum does not match.
    CRCFailure,
}

/// Why a frame header could not be built.
#[derive(Debug, PartialEq, Eq, Structural)]
pub enum EncodeError {
    /// More addresses than a route holds.
    AddressTooLong,
    /// No separator between forward and return path.
    AddressSeparatorNotFound,
}

/// The number that four bytes spell, most significant first.
pub open spec fn be_u32(a: u8, b: u8, c: u8, d: u8) -> u32 {
    ((a as u32) << 24u32) | ((b as u32) << 16u32) | ((c as u32) << 8u32) | (d as u32)
}

/// The number that two bytes spell, most significant first.
pub open spec fn be_u16(a: u8, b: u8) -> u16 {
    ((a as u16) << 8u16) | (b as u16)
}

/// Relies on byteorder's `BigEndian::read_u32`: the four bytes at `at`, most
/// significant first.
#[verifier::external_body]
fn read_be32(b: &[u8], at: usize) -> (r: u32)
    requires
        at + 4 <= b@.len(),
    ensures
        r == be_u32(b@[at as int], b@[at + 1], b@[at + 2], b@[at + 3]),
{
    BigEndian::read_u32(&b[at..])
}

/// Relies on byteorder's `BigEndian::read_u16`: the two bytes at `at`, most
/// significant first.
#[verifier::external_body]
fn read_be16(b: &[u8], at: usize) -> (r: u16)
    requires
        at + 2 <= b@.len(),
    ensures
        r == be_u16(b@[at as int], b@[at + 1]),
{
    BigEndian::read_u16(&b[at..])
}

/// Relies on byteorder's `BigEndian::write_u32`: the four bytes of `v`, most
/// significant first.
#[verifier::external_body]
fn be32_of(v: u32) -> (r: [u8; 4])
    ensures
        r@ == be_bytes32(v),
{
    let mut buf = [0u8; 4];
    BigEndian::write_u32(&mut buf, v);
    buf
}

/// Relies on byteorder's `BigEndian::write_u16`: the two bytes of `v`, most
/// significant first.
#[verifier::external_body]
fn be16_of(v: u16) -> (r: [u8; 2])
    ensures
        r@ == be_bytes16(v),
{
    let mut buf = [0u8; 2];
    BigEndian::write_u16(&mut buf, v);
    buf
}

/// An acknowledgement header for packet `prn`, to travel on `dest`.
pub fn new_ack(prn: u32, dest: Route) -> (r: Frame)
    ensures
        r.prn == prn,
        r.address_route == dest,
{
    Frame { prn, address_route: dest }
}

/// Whether `s` holds a separator.
pub open spec fn has_separator(s: Seq<u32>) -> bool {
    exists|i: int| 0 <= i < s.len() && s[i] == ADDRESS_SEPARATOR
}

/// A data frame header on route `dest` (padded with separators) with the next
/// identifier of `prn`. The route must fit and hold a separator; `prn` moves
/// on only when the header is built.
pub fn new_header(prn: &mut PRN, dest: &[u32]) -> (r: Result<Frame, EncodeError>)
    ensures
        dest@.len() > 17 ==> r == Err::<Frame, EncodeError>(EncodeError::AddressTooLong),
        dest@.len() <= 17 && !has_separator(dest@) ==> r == Err::<Frame, EncodeError>(
            EncodeError::AddressSeparatorNotFound,
        ),
        dest@.len() <= 17 && has_separator(dest@) ==> r is Ok,
        r is Err ==> *final(prn) == *old(prn),
        r matches Ok(f) ==> {
            &&& dest@.len() <= 17 && has_separator(dest@)
            &&& final(prn).current == prn_id::lfsr_step(old(prn).current)
            &&& final(prn).callsign == old(prn).callsign
            &&& f.prn == final(prn).current ^ final(prn).callsign
            &&& f.address_route@ == routing::pad_route(dest@)
        },
{
    if dest.len() > 17 {
        return Err(EncodeError::AddressTooLong);
    }
    let mut found_sep = false;
    let mut i: usize = 0;
    while i < dest.len()
        invariant
            i <= dest@.len() <= 17,
            found_sep == (exists|j: int| 0 <= j < i && dest@[j] == ADDRESS_SEPARATOR),
        decreases dest@.len() - i,
    {
        if dest[i] == ADDRESS_SEPARATOR {
            found_sep = true;
        }
        i = i + 1;
    }
    if !found_sep {
        return Err(EncodeError::AddressSeparatorNotFound);
    }
    let route = routing::gen_route(dest);
    Ok(Frame { prn: prn.next(), address_route: route })
}

/// Number of separators in `s`.
pub open spec fn sep_count(s: Seq<u32>) -> nat
    decreases s.len(),
{
    if s.len() == 0 {
        0
    } else {
        sep_count(s.drop_last()) + if s.last() == ADDRESS_SEPARATOR {
            1nat
        } else {
            0nat
        }
    }
}

/// Number of route words read from `ws`, scanning from `n`: up to and
/// including the second separator, at most seventeen.
pub open spec fn scan_from(ws: Seq<u32>, n: nat) -> nat
    decreases 17 - n,
{
    if n >= 17 {
        17
    } else if sep_count(ws.take(n as int)) == 2 {
        n
    } else {
        scan_from(ws, n + 1)
    }
}

/// The route words that go on the wire: up to the second separator, with a
/// separator appended where fewer than two were sent.
pub open spec fn route_words(r: Seq<u32>) -> Seq<u32> {
    let l = scan_from(r, 0);
    if sep_count(r.take(l as int)) < 2 {
        r.take(l as int).push(ADDRESS_SEPARATOR)
    } else {
        r.take(l as int)
    }
}

/// Words as bytes, each most significant first.
pub open spec fn words_bytes(ws: Seq<u32>) -> Seq<u8>
    decreases ws.len(),
{
    if ws.len() == 0 {
        seq![]
    } else {
        words_bytes(ws.drop_last()) + be_bytes32(ws.last())
    }
}

/// The bytes that the checksum covers, for identifier `prn`, route `route`
/// and payload `p`.
pub open spec fn body_of(prn: u32, route: Seq<u32>, p: Seq<u8>) -> Seq<u8> {
    be_bytes32(prn) + words_bytes(route_words(route)) + p
}

/// A frame on the wire, from its parts.
pub open spec fn wire_frame(prn: u32, route: Seq<u32>, p: Seq<u8>) -> Seq<u8> {
    body_of(prn, route, p) + be_bytes16(crc_of(body_of(prn, route, p)))
}

/// The bytes that the checksum covers.
pub open spec fn frame_body(f: Frame, p: Seq<u8>) -> Seq<u8> {
    body_of(f.prn, f.address_route@, p)
}

/// A frame on the wire.
pub open spec fn serialize_spec(f: Frame, p: Seq<u8>) -> Seq<u8> {
    wire_frame(f.prn, f.address_route@, p)
}

/// The payload that an optional slice stands for.
pub open spec fn payload_of(payload: Option<&[u8]>) -> Seq<u8> {
    match payload {
        Some(d) => d@,
        None => seq![],
    }
}

proof fn lemma_scan_bounds(ws: Seq<u32>, n: nat)
    requires
        n <= 17,
    ensures
        n <= scan_from(ws, n) <= 17,
        scan_from(ws, n) < 17 ==> sep_count(ws.take(scan_from(ws, n) as int)) == 2,
    decreases 17 - n,
{
    if n < 17 && sep_count(ws.take(n as int)) != 2 {
        lemma_scan_bounds(ws, n + 1);
    }
}

proof fn lemma_take_push(s: Seq<u32>, i: int)
    requires
        0 <= i < s.len(),
    ensures
        s.take(i + 1) == s.take(i).push(s[i]),
        s.take(i + 1).drop_last() == s.take(i),
        s.take(i + 1).last() == s[i],
{
    assert(s.take(i + 1) =~= s.take(i).push(s[i]));
    assert(s.take(i + 1).drop_last() =~= s.take(i));
}

/// Appends the wire form of `frame` with `payload` (none for an
/// acknowledgement) and returns the number of bytes appended.
#[verifier::rlimit(50)]
pub fn to_bytes(bytes: &mut Vec<u8>, frame: &Frame, payload: Option<&[u8]>) -> (r: usize)
    requires
        old(bytes)@.len() + payload_of(payload).len() + MAX_ACK_SIZE <= usize::MAX,
    ensures
        final(bytes)@ == old(bytes)@ + serialize_spec(*frame, payload_of(payload)),
        r == serialize_spec(*frame, payload_of(payload)).len(),
{
    let ghost start = bytes@;
    let start_len = bytes.len();
    let ghost r_seq = frame.address_route@;
    let mut crc = crc16::new();
    let prn_bytes = be32_of(frame.prn);
    bytes.push(prn_bytes[0]);
    bytes.push(prn_bytes[1]);
    bytes.push(prn_bytes[2]);
    bytes.push(prn_bytes[3]);
    crc = crc16::update_u32(frame.prn, crc);
    assert(bytes@ =~= start + be_bytes32(frame.prn));
    assert(be_bytes32(frame.prn) =~= Seq::<u8>::empty() + be_bytes32(frame.prn));
    assert(crc_bytes(0xFFFF, Seq::<u8>::empty()) == 0xFFFF);
    proof {
        lemma_crc_bytes_append(0xFFFF, Seq::<u8>::empty(), be_bytes32(frame.prn));
    }
    let mut delim_count: usize = 0;
    let mut i: usize = 0;
    assert(r_seq.take(0) =~= Seq::<u32>::empty());
    proof {
        lemma_scan_bounds(r_seq, 0);
    }
    while i < 17
        invariant_except_break
            delim_count < 2,
        invariant
            i <= 17,
            r_seq == frame.address_route@,
            r_seq.len() == 17,
            delim_count == sep_count(r_seq.take(i as int)),
            delim_count <= 2,
            scan_from(r_seq, 0) == scan_from(r_seq, i as nat),
            bytes@ == start + be_bytes32(frame.prn) + words_bytes(r_seq.take(i as int)),
            crc == crc_bytes(0xFFFF, be_bytes32(frame.prn) + words_bytes(r_seq.take(i as int))),
            bytes@.len() == start.len() + 4 + 4 * i,
            start.len() + payload_of(payload).len() + MAX_ACK_SIZE <= usize::MAX,
        ensures
            i == 17 || delim_count == 2,
        decreases 17 - i,
    {
        let addr = frame.address_route[i];
        proof {
            lemma_take_push(r_seq, i as int);
        }
        if addr == ADDRESS_SEPARATOR {
            delim_count = delim_count + 1;
        }
        let wb = be32_of(addr);
        bytes.push(wb[0]);
        bytes.push(wb[1]);
        bytes.push(wb[2]);
        bytes.push(wb[3]);
        proof {
            let prev = be_bytes32(frame.prn) + words_bytes(r_seq.take(i as int));
            lemma_crc_bytes_append(0xFFFF, prev, be_bytes32(addr));
            assert(prev + be_bytes32(addr) =~= be_bytes32(frame.prn) + words_bytes(
                r_seq.take(i + 1),
            ));
        }
        crc = crc16::update_u32(addr, crc);
        i = i + 1;
        if delim_count == 2 {
            break;
        }
    }
    proof {
        lemma_scan_bounds(r_seq, i as nat);
        assert(scan_from(r_seq, 0) == i);
    }
    if delim_count < 2 {
        let wb = be32_of(ADDRESS_SEPARATOR);
        bytes.push(wb[0]);
        bytes.push(wb[1]);
        bytes.push(wb[2]);
        bytes.push(wb[3]);
        proof {
            let prev = be_bytes32(frame.prn) + words_bytes(r_seq.take(i as int));
            lemma_crc_bytes_append(0xFFFF, prev, be_bytes32(ADDRESS_SEPARATOR));
            let ws = r_seq.take(i as int).push(ADDRESS_SEPARATOR);
            assert(ws.drop_last() =~= r_seq.take(i as int));
            assert(prev + be_bytes32(ADDRESS_SEPARATOR) =~= be_bytes32(frame.prn) + words_bytes(ws));
        }
        crc = crc16::update_u32(ADDRESS_SEPARATOR, crc);
    }
    let ghost head = be_bytes32(frame.prn) + words_bytes(route_words(r_seq));
    assert(bytes@ =~= start + head);
    assert(crc == crc_bytes(0xFFFF, head));
    let mut j: usize = 0;
    match payload {
        Some(data) => {
            while j < data.len()
                invariant
                    j <= data@.len(),
                    payload_of(payload) == data@,
                    bytes@ == start + head + data@.take(j as int),
                    crc == crc_bytes(0xFFFF, head + data@.take(j as int)),
                decreases data@.len() - j,
            {
                bytes.push(data[j]);
                proof {
                    let prev = head + data@.take(j as int);
                    assert(data@.take(j + 1) =~= data@.take(j as int).push(data@[j as int]));
                    assert((head + data@.take(j + 1)).drop_last() =~= prev);
                }
                crc = crc16::update_u8(data[j], crc);
                j = j + 1;
            }
            assert(data@.take(data@.len() as int) =~= data@);
        },
        None => {
            assert(head + Seq::<u8>::empty() =~= head);
        },
    }
    assert(bytes@ =~= start + frame_body(*frame, payload_of(payload)));
    let c = crc16::finish(crc);
    let cb = be16_of(c);
    bytes.push(cb[0]);
    bytes.push(cb[1]);
    assert(bytes@ =~= start + serialize_spec(*frame, payload_of(payload)));
    bytes.len() - start_len
}

/// Route word `i` of `b`: the four bytes after the identifier and `i` words.
pub open spec fn word_at(b: Seq<u8>, i: int) -> u32 {
    be_u32(b[4 + 4 * i], b[5 + 4 * i], b[6 + 4 * i], b[7 + 4 * i])
}

/// The first seventeen route words of `b`.
pub open spec fn route_section(b: Seq<u8>) -> Seq<u32> {
    Seq::new(17, |i: int| word_at(b, i))
}

/// Number of route words that a frame `b` holds, the closing separator of a
/// full route included.
pub open spec fn wire_route_len(b: Seq<u8>) -> nat {
    let ws = route_section(b);
    let l = scan_from(ws, 0);
    if sep_count(ws.take(l as int)) < 2 {
        l + 1
    } else {
        l
    }
}

/// What `from_bytes` makes of `b`: the identifier, the route and the payload,
/// or the error. A frame too short for its route and checksum is truncated;
/// then the checksum over all but the last two bytes must match them; then
/// the payload must fit the MTU; then a full route must end in a separator.
pub open spec fn parse_spec(b: Seq<u8>) -> Result<(u32, Seq<u32>, Seq<u8>), ReadError> {
    let ws = route_section(b);
    let l = scan_from(ws, 0);
    let n = wire_route_len(b);
    let header = 4 + 4 * n + 2;
    if b.len() < header {
        Err(ReadError::Truncated)
    } else if crc_of(b.take(b.len() - 2)) != be_u16(b[b.len() - 2], b[b.len() - 1]) {
        Err(ReadError::CRCFailure)
    } else if b.len() - header > MTU {
        Err(ReadError::Truncated)
    } else if n > l && word_at(b, 17) != ADDRESS_SEPARATOR {
        Err(ReadError::BadAddress)
    } else {
        Ok(
            (
                be_u32(b[0], b[1], b[2], b[3]),
                routing::pad_route(ws.take(l as int)),
                b.subrange(4 + 4 * n as int, b.len() - 2),
            ),
        )
    }
}

/// Reads a frame that fills `bytes` exactly, returning its header and payload.
pub fn from_bytes(bytes: &[u8]) -> (r: Result<(Frame, Vec<u8>), ReadError>)
    ensures
        match parse_spec(bytes@) {
            Ok((prn, route, p)) => r matches Ok((f, q)) && f.prn == prn && f.address_route@
                == route && q@ == p,
            Err(e) => r == Err::<(Frame, Vec<u8>), ReadError>(e),
        },
{
    let len = bytes.len();
    let ghost b = bytes@;
    let ghost ws = route_section(b);
    if len < 4 {
        proof {
            lemma_scan_bounds(ws, 0);
        }
        return Err(ReadError::Truncated);
    }
    let prn = read_be32(bytes, 0);
    let mut addr: Route = [ADDRESS_SEPARATOR; 17];
    let mut addr_len: usize = 0;
    let mut marker: usize = 0;
    assert(ws.take(0) =~= Seq::<u32>::empty());
    proof {
        lemma_scan_bounds(ws, 0);
    }
    while addr_len < 17
        invariant_except_break
            marker < 2,
        invariant
            addr_len <= 17,
            len == b.len() >= 4,
            b == bytes@,
            ws == route_section(b),
            marker == sep_count(ws.take(addr_len as int)),
            marker <= 2,
            scan_from(ws, 0) == scan_from(ws, addr_len as nat),
            addr@.len() == 17,
            forall|j: int| 0 <= j < addr_len ==> addr@[j] == ws[j],
            forall|j: int| addr_len <= j < 17 ==> addr@[j] == ADDRESS_SEPARATOR,
            4 + 4 * addr_len <= len,
        ensures
            addr_len == 17 || marker == 2,
        decreases 17 - addr_len,
    {
        if len < 8 + 4 * addr_len {
            proof {
                lemma_scan_bounds(ws, addr_len as nat);
                lemma_scan_bounds(ws, 0);
            }
            return Err(ReadError::Truncated);
        }
        let value = read_be32(bytes, 4 + 4 * addr_len);
        assert(value == ws[addr_len as int]);
        proof {
            lemma_take_push(ws, addr_len as int);
        }
        if value == ADDRESS_SEPARATOR {
            marker = marker + 1;
        }
        addr[addr_len] = value;
        addr_len = addr_len + 1;
        if marker == 2 {
            break;
        }
    }
    proof {
        lemma_scan_bounds(ws, addr_len as nat);
        assert(scan_from(ws, 0) == addr_len);
        assert(addr@ =~= routing::pad_route(ws.take(addr_len as int)));
    }
    let mut total: usize = addr_len;
    let mut bad_address = false;
    if marker < 2 {
        if len < 8 + 4 * 17 {
            return Err(ReadError::Truncated);
        }
        let value = read_be32(bytes, 4 + 4 * 17);
        bad_address = value != ADDRESS_SEPARATOR;
        total = 18;
    }
    assert(total == wire_route_len(b));
    let header: usize = 4 + 4 * total + 2;
    if len < header {
        return Err(ReadError::Truncated);
    }
    let mut crc = crc16::new();
    let mut i: usize = 0;
    assert(b.take(0) =~= Seq::<u8>::empty());
    while i < len - 2
        invariant
            header <= len == b.len(),
            b == bytes@,
            i <= len - 2,
            crc == crc_bytes(0xFFFF, b.take(i as int)),
        decreases len - 2 - i,
    {
        assert(b.take(i + 1).drop_last() =~= b.take(i as int));
        crc = crc16::update_u8(bytes[i], crc);
        i = i + 1;
    }
    let crc = crc16::finish(crc);
    let frame_crc = read_be16(bytes, len - 2);
    if frame_crc != crc {
        return Err(ReadError::CRCFailure);
    }
    if len - header > MTU {
        return Err(ReadError::Truncated);
    }
    if bad_address {
        return Err(ReadError::BadAddress);
    }
    let mut payload: Vec<u8> = Vec::new();
    let start = 4 + 4 * total;
    let mut k: usize = start;
    while k < len - 2
        invariant
            header <= len == b.len(),
            b == bytes@,
            start == 4 + 4 * total,
            start <= k <= len - 2,
            payload@ == b.subrange(start as int, k as int),
        decreases len - 2 - k,
    {
        payload.push(bytes[k]);
        assert(b.subrange(start as int, k + 1) =~= b.subrange(start as int, k as int).push(b[k as int]));
        k = k + 1;
    }
    Ok((Frame { prn, address_route: addr }, payload))
}

proof fn lemma_be32_round_trip(v: u32)
    ensures
        be_u32(be_bytes32(v)[0], be_bytes32(v)[1], be_bytes32(v)[2], be_bytes32(v)[3]) == v,
{
    assert(((((v >> 24u32) as u8) as u32) << 24u32) | ((((v >> 16u32) as u8) as u32) << 16u32) | (
    (((v >> 8u32) as u8) as u32) << 8u32) | ((v as u8) as u32) == v) by (bit_vector);
}

proof fn lemma_be16_round_trip(v: u16)
    ensures
        be_u16(be_bytes16(v)[0], be_bytes16(v)[1]) == v,
{
    assert(((((v >> 8u16) as u8) as u16) << 8u16) | ((v as u8) as u16) == v) by (bit_vector);
}

proof fn lemma_words_bytes(ws: Seq<u32>)
    ensures
        words_bytes(ws).len() == 4 * ws.len(),
        forall|i: int, j: int|
            0 <= i < ws.len() && 0 <= j < 4 ==> #[trigger] words_bytes(ws)[4 * i + j]
                == be_bytes32(ws[i])[j],
    decreases ws.len(),
{
    if ws.len() > 0 {
        let init = ws.drop_last();
        lemma_words_bytes(init);
        assert forall|i: int, j: int| 0 <= i < ws.len() && 0 <= j < 4 implies #[trigger] words_bytes(
            ws,
        )[4 * i + j] == be_bytes32(ws[i])[j] by {
            if i < ws.len() - 1 {
                assert(words_bytes(ws)[4 * i + j] == words_bytes(init)[4 * i + j]);
                assert(init[i] == ws[i]);
            }
        }
    }
}

proof fn lemma_scan_same_prefix(x: Seq<u32>, y: Seq<u32>, n: nat)
    requires
        n <= scan_from(x, 0),
        x.take(scan_from(x, 0) as int) == y.take(scan_from(x, 0) as int),
        x.len() == 17,
        y.len() == 17,
    ensures
        scan_from(y, n) == scan_from(x, n),
    decreases 17 - n,
{
    let l = scan_from(x, 0);
    lemma_scan_bounds(x, 0);
    assert(x.take(n as int) =~= x.take(l as int).take(n as int));
    assert(y.take(n as int) =~= y.take(l as int).take(n as int));
    if n < l {
        lemma_scan_same_prefix(x, y, n + 1);
    }
}

/// A route whose slots after its wire part are all separators.
pub open spec fn canonical_route(r: Seq<u32>) -> bool {
    routing::pad_route(r.take(scan_from(r, 0) as int)) == r
}

proof fn lemma_scan_at_result(x: Seq<u32>)
    ensures
        scan_from(x, scan_from(x, 0)) == scan_from(x, 0),
{
    lemma_scan_bounds(x, 0);
}

/// Reading back a serialized frame gives its identifier, its route and its
/// payload, for every payload up to the MTU and every route whose slots after
/// its wire part are separators.
pub proof fn lemma_frame_round_trip(f: Frame, p: Seq<u8>)
    requires
        p.len() <= MTU,
        canonical_route(f.address_route@),
    ensures
        parse_spec(serialize_spec(f, p)) == Ok::<(u32, Seq<u32>, Seq<u8>), ReadError>(
            (f.prn, f.address_route@, p),
        ),
{
    lemma_wire_round_trip(f.prn, f.address_route@, p);
}

/// Reading back the wire form of identifier `prn`, route `r` and payload `p`
/// gives them back, for every payload up to the MTU and every route of
/// seventeen slots whose slots after its wire part are separators.
pub proof fn lemma_wire_round_trip(prn: u32, r: Seq<u32>, p: Seq<u8>)
    requires
        p.len() <= MTU,
        r.len() == 17,
        canonical_route(r),
    ensures
        parse_spec(wire_frame(prn, r, p)) == Ok::<(u32, Seq<u32>, Seq<u8>), ReadError>((prn, r, p)),
{
    let l = scan_from(r, 0);
    lemma_scan_bounds(r, 0);
    let rw = route_words(r);
    let wb = words_bytes(rw);
    let body = body_of(prn, r, p);
    let s = wire_frame(prn, r, p);
    let c = crc_of(body);
    lemma_words_bytes(rw);
    let n = rw.len();
    assert(s.len() == 4 + 4 * n + p.len() + 2);
    let ws = route_section(s);
    assert forall|i: int| 0 <= i < n implies #[trigger] word_at(s, i) == rw[i] by {
        assert(s[4 + 4 * i] == wb[4 * i + 0]);
        assert(s[5 + 4 * i] == wb[4 * i + 1]);
        assert(s[6 + 4 * i] == wb[4 * i + 2]);
        assert(s[7 + 4 * i] == wb[4 * i + 3]);
        lemma_be32_round_trip(rw[i]);
    }
    assert(ws.take(l as int) =~= r.take(l as int)) by {
        assert forall|i: int| 0 <= i < l implies ws[i] == r[i] by {
            assert(rw[i] == r[i]);
        }
    }
    lemma_scan_at_result(r);
    lemma_scan_same_prefix(r, ws, 0);
    assert(scan_from(ws, 0) == l);
    assert(wire_route_len(s) == n);
    assert(s.take(s.len() - 2) =~= body);
    lemma_be16_round_trip(c);
    assert(s[s.len() - 2] == be_bytes16(c)[0]);
    assert(s[s.len() - 1] == be_bytes16(c)[1]);
    if n > l {
        assert(word_at(s, 17) == rw[17]);
    }
    lemma_be32_round_trip(prn);
    assert(s.subrange(4 + 4 * n as int, s.len() - 2) =~= p);
}

/// Flipping any one bit of a serialized frame makes it fail to read.
pub proof fn lemma_frame_corruption_detected(f: Frame, p: Seq<u8>, i: int, k: u8)
    requires
        0 <= i < serialize_spec(f, p).len(),
        k < 8,
    ensures
        parse_spec(serialize_spec(f, p).update(i, serialize_spec(f, p)[i] ^ (1u8 << k))) is Err,
{
    let body = frame_body(f, p);
    let s = serialize_spec(f, p);
    let c = crc_of(body);
    let m: u8 = 1u8 << k;
    let t = s.update(i, s[i] ^ m);
    let len = s.len();
    lemma_be16_round_trip(c);
    let hi = be_bytes16(c)[0];
    let lo = be_bytes16(c)[1];
    assert(s[len - 2] == hi && s[len - 1] == lo);
    if i < body.len() {
        assert(t.take(len - 2) =~= body.update(i, body[i] ^ m));
        crc16::lemma_crc_detects_bit_flip(body, i, k);
        assert(t[len - 2] == hi && t[len - 1] == lo);
    } else {
        assert(t.take(len - 2) =~= body);
        assert(m != 0) by (bit_vector)
            requires
                k < 8,
                m == 1u8 << k,
        ;
        if i == len - 2 {
            assert(be_u16(hi ^ m, lo) != be_u16(hi, lo)) by (bit_vector)
                requires
                    m != 0,
            ;
            assert(t[len - 2] == hi ^ m && t[len - 1] == lo);
        } else {
            assert(be_u16(hi, lo ^ m) != be_u16(hi, lo)) by (bit_vector)
                requires
                    m != 0,
            ;
            assert(t[len - 2] == hi && t[len - 1] == lo ^ m);
        }
    }
}

} // verus!
