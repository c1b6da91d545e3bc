//! KISS framing: byte-stuffed HDLC-style frames between `FEND` delimiters,
//! with a command and port byte after the opening delimiter.
use vstd::prelude::*;

verus! {

/// Frame delimiter.
pub const FEND: u8 = 0xC0;

/// Frame escape.
pub const FESC: u8 = 0xDB;

/// Escaped `FEND`.
pub const TFEND: u8 = 0xDC;

/// Escaped `FESC`.
pub const TFESC: u8 = 0xDD;

/// Data to be sent out by the TNC.
pub const CMD_DATA: u8 = 0x00;

/// Time to wait between keying the transmitter and sending data, in 10 ms units.
pub const CMD_TX_DELAY: u8 = 0x01;

/// Persistence parameter for CSMA.
pub const CMD_PERSISTENCE: u8 = 0x02;

/// Slot time for CSMA, in 10 ms units.
pub const CMD_SLOT_TIME: u8 = 0x03;

/// Time to keep the transmitter keyed after the data, in 10 ms units.
pub const CMD_TX_TAIL: u8 = 0x04;

/// Zero for half duplex, anything else for full duplex.
pub const CMD_DUPLEX: u8 = 0x05;

/// Leave KISS mode, on all ports.
pub const CMD_RETURN: u8 = 0xFF;

/// Result of decoding one frame.
pub struct DecodedFrame {
    /// Port that the frame came from.
    pub port: u8,
    /// Input bytes to drain: everything up to and including the closing delimiter.
    pub bytes_read: usize,
    /// Number of payload bytes written out.
    pub payload_size: usize,
}

/// The bytes that stand for `b` inside a frame.
pub open spec fn escape_byte(b: u8) -> Seq<u8> {
    if b == FEND {
        seq![FESC, TFEND]
    } else if b == FESC {
        seq![FESC, TFESC]
    } else {
        seq![b]
    }
}

/// The stuffed form of a payload.
pub open spec fn escape_seq(d: Seq<u8>) -> Seq<u8>
    decreases d.len(),
{
    if d.len() == 0 {
        seq![]
    } else {
        escape_byte(d[0]) + escape_seq(d.drop_first())
    }
}

/// The command byte of a data frame on `port`.
pub open spec fn data_cmd(port: u8) -> u8 {
    CMD_DATA | ((port & 0x0Fu8) << 4u8)
}

/// A whole data frame for `d` on `port`.
pub open spec fn kiss_frame(d: Seq<u8>, port: u8) -> Seq<u8> {
    seq![FEND, data_cmd(port)] + escape_seq(d) + seq![FEND]
}

/// What `encode_cmd` appends.
pub open spec fn cmd_frame(cmd: u8, data: u8, port: u8) -> Seq<u8> {
    if cmd == CMD_RETURN {
        seq![FEND, CMD_RETURN, FEND]
    } else {
        seq![FEND, cmd | ((port & 0x0Fu8) << 4u8), data, FEND]
    }
}

/// Undoes the stuffing; `esc` says an escape byte came just before. An escape
/// followed by anything but `TFEND` or `TFESC` is dropped with that byte.
pub open spec fn unescape(c: Seq<u8>, esc: bool) -> Seq<u8>
    decreases c.len(),
{
    if c.len() == 0 {
        seq![]
    } else if c[0] == FESC {
        unescape(c.drop_first(), true)
    } else if esc {
        (if c[0] == TFEND {
            seq![FEND]
        } else if c[0] == TFESC {
            seq![FESC]
        } else {
            Seq::<u8>::empty()
        }) + unescape(c.drop_first(), false)
    } else {
        seq![c[0]] + unescape(c.drop_first(), false)
    }
}

/// Index of the first delimiter at or after `i`, or `d.len()`.
pub open spec fn first_fend_from(d: Seq<u8>, i: int) -> int
    decreases d.len() - i,
{
    if i >= d.len() {
        d.len() as int
    } else if d[i] == FEND {
        i
    } else {
        first_fend_from(d, i + 1)
    }
}

/// The last delimiter of the run of delimiters that starts at `s`.
pub open spec fn fend_run_end(d: Seq<u8>, s: int) -> int
    decreases d.len() - s,
{
    if s + 1 < d.len() && d[s + 1] == FEND {
        fend_run_end(d, s + 1)
    } else {
        s
    }
}

/// The port, the number of bytes read and the payload of the first complete
/// frame of `d`; none where no frame is closed. Bytes before the first
/// delimiter are skipped and adjacent delimiters enclose no frame.
pub open spec fn decode_spec(d: Seq<u8>) -> Option<(u8, nat, Seq<u8>)> {
    let s0 = first_fend_from(d, 0);
    if s0 >= d.len() {
        None
    } else {
        let s = fend_run_end(d, s0);
        let e = first_fend_from(d, s + 1);
        if e >= d.len() {
            None
        } else {
            let u = unescape(d.subrange(s + 1, e), false);
            if u.len() > 0 {
                Some((u[0] >> 4u8, (e + 1) as nat, u.drop_first()))
            } else {
                Some((0u8, (e + 1) as nat, u))
            }
        }
    }
}

proof fn lemma_escape_seq_push(d: Seq<u8>, b: u8)
    ensures
        escape_seq(d.push(b)) == escape_seq(d) + escape_byte(b),
    decreases d.len(),
{
    if d.len() == 0 {
        assert(d.push(b).drop_first() =~= Seq::<u8>::empty());
        assert(d.push(b)[0] == b);
        assert(escape_seq(Seq::<u8>::empty()) == Seq::<u8>::empty());
        assert(escape_seq(d.push(b)) =~= escape_byte(b));
    } else {
        assert(d.push(b).drop_first() =~= d.drop_first().push(b));
        lemma_escape_seq_push(d.drop_first(), b);
        assert(escape_seq(d.push(b)) =~= escape_seq(d) + escape_byte(b));
    }
}

/// Appends a data frame carrying `data` on `port` (low four bits). The
/// command byte is not stuffed: on port 12 it is `0xC0`, the delimiter
/// itself, so `decode` sees an empty frame there and takes the first payload
/// byte for the command byte: such a frame does not read back.
pub fn encode(data: &[u8], encoded: &mut Vec<u8>, port: u8)
    ensures
        final(encoded)@ == old(encoded)@ + kiss_frame(data@, port),
{
    let ghost start = encoded@;
    encoded.push(FEND);
    encoded.push(CMD_DATA | ((port & 0x0F) << 4));
    let mut i: usize = 0;
    assert(data@.subrange(0, 0) =~= Seq::<u8>::empty());
    while i < data.len()
        invariant
            i <= data@.len(),
            encoded@ == start + seq![FEND, data_cmd(port)] + escape_seq(data@.subrange(0, i as int)),
        decreases data@.len() - i,
    {
        let b = data[i];
        if b == FEND {
            encoded.push(FESC);
            encoded.push(TFEND);
        } else if b == FESC {
            encoded.push(FESC);
            encoded.push(TFESC);
        } else {
            encoded.push(b);
        }
        proof {
            assert(data@.subrange(0, i + 1) =~= data@.subrange(0, i as int).push(b));
            lemma_escape_seq_push(data@.subrange(0, i as int), b);
        }
        i = i + 1;
    }
    encoded.push(FEND);
    assert(data@.subrange(0, data@.len() as int) =~= data@);
    assert(encoded@ =~= start + kiss_frame(data@, port));
}

/// Appends a command frame for the TNC. `CMD_RETURN` is sent bare, for all
/// ports; any other command carries `port` (low four bits) and one data byte.
pub fn encode_cmd(encoded: &mut Vec<u8>, cmd: u8, data: u8, port: u8)
    ensures
        final(encoded)@ == old(encoded)@ + cmd_frame(cmd, data, port),
{
    let ghost start = encoded@;
    encoded.push(FEND);
    if cmd == CMD_RETURN {
        encoded.push(CMD_RETURN);
    } else {
        encoded.push(cmd | ((port & 0x0F) << 4));
        encoded.push(data);
    }
    encoded.push(FEND);
    assert(encoded@ =~= start + cmd_frame(cmd, data, port));
}

/// Decodes the first complete frame of `data`, appending its payload (the
/// bytes after the command byte, unstuffed) to `decoded`. Returns none, and
/// leaves `decoded` alone, where no frame is closed in `data`.
pub fn decode(data: &[u8], decoded: &mut Vec<u8>) -> (r: Option<DecodedFrame>)
    ensures
        match decode_spec(data@) {
            None => r is None && final(decoded)@ == old(decoded)@,
            Some((port, n, p)) => r matches Some(f) && f.port == port && f.bytes_read == n
                && f.payload_size == p.len() && final(decoded)@ == old(decoded)@ + p,
        },
{
    let len = data.len();
    let mut s: usize = 0;
    while s < len && data[s] != FEND
        invariant
            s <= len == data@.len(),
            first_fend_from(data@, 0) == first_fend_from(data@, s as int),
        decreases len - s,
    {
        s = s + 1;
    }
    if s >= len {
        return None;
    }
    while s + 1 < len && data[s + 1] == FEND
        invariant
            s < len == data@.len(),
            fend_run_end(data@, first_fend_from(data@, 0)) == fend_run_end(data@, s as int),
        decreases len - s,
    {
        s = s + 1;
    }
    let mut e: usize = s + 1;
    while e < len && data[e] != FEND
        invariant
            s < e <= len == data@.len(),
            first_fend_from(data@, s + 1) == first_fend_from(data@, e as int),
        decreases len - e,
    {
        e = e + 1;
    }
    if e >= len {
        return None;
    }
    let ghost c = data@.subrange(s + 1, e as int);
    let mut u: Vec<u8> = Vec::new();
    let mut esc = false;
    let mut i: usize = s + 1;
    assert(c.subrange(0, c.len() as int) =~= c);
    while i < e
        invariant
            s < i <= e < len == data@.len(),
            c == data@.subrange(s + 1, e as int),
            unescape(c, false) == u@ + unescape(data@.subrange(i as int, e as int), esc),
        decreases e - i,
    {
        let b = data[i];
        let ghost rest = data@.subrange(i as int, e as int);
        assert(rest.drop_first() =~= data@.subrange(i + 1, e as int));
        assert(rest[0] == b);
        if b == FESC {
            esc = true;
        } else if esc {
            if b == TFEND {
                u.push(FEND);
            } else if b == TFESC {
                u.push(FESC);
            }
            esc = false;
        } else {
            u.push(b);
        }
        proof {
            let after = data@.subrange(i + 1, e as int);
            if b != FESC && b != TFEND && b != TFESC {
                assert(unescape(rest, true) =~= unescape(after, false));
            }
            assert(unescape(c, false) =~= u@ + unescape(after, esc));
        }
        i = i + 1;
    }
    assert(data@.subrange(e as int, e as int) =~= Seq::<u8>::empty());
    assert(u@ =~= unescape(c, false));
    let port: u8 = if u.len() > 0 {
        u[0] >> 4
    } else {
        0
    };
    let ghost before = decoded@;
    let mut j: usize = 1;
    while j < u.len()
        invariant
            1 <= j,
            u@.len() > 0 ==> j <= u@.len(),
            u@.len() > 0 ==> decoded@ == before + u@.subrange(1, j as int),
            u@.len() == 0 ==> decoded@ == before,
        decreases u@.len() - j,
    {
        decoded.push(u[j]);
        assert(u@.subrange(1, j + 1) =~= u@.subrange(1, j as int).push(u@[j as int]));
        j = j + 1;
    }
    if u.len() > 0 {
        assert(u@.subrange(1, u@.len() as int) =~= u@.drop_first());
    } else {
        assert(decoded@ =~= before + u@);
    }
    Some(DecodedFrame { port, bytes_read: e + 1, payload_size: if u.len() > 0 { u.len() - 1 } else { 0 } })
}

/// A decoded frame reads at least one byte and no more than there are.
pub proof fn lemma_decode_reads(d: Seq<u8>)
    ensures
        decode_spec(d) matches Some((_, n, _)) ==> 1 <= n <= d.len(),
{
    let s0 = first_fend_from(d, 0);
    if s0 < d.len() {
        lemma_first_fend_bounds(d, 0);
        lemma_fend_run_bounds(d, s0);
        lemma_first_fend_bounds(d, fend_run_end(d, s0) + 1);
    }
}

proof fn lemma_first_fend_bounds(d: Seq<u8>, i: int)
    requires
        0 <= i,
    ensures
        i <= first_fend_from(d, i) || first_fend_from(d, i) == d.len(),
        first_fend_from(d, i) <= d.len() || i > d.len(),
    decreases d.len() - i,
{
    if i < d.len() && d[i] != FEND {
        lemma_first_fend_bounds(d, i + 1);
    }
}

proof fn lemma_fend_run_bounds(d: Seq<u8>, s: int)
    requires
        0 <= s < d.len(),
    ensures
        s <= fend_run_end(d, s) < d.len(),
    decreases d.len() - s,
{
    if s + 1 < d.len() && d[s + 1] == FEND {
        lemma_fend_run_bounds(d, s + 1);
    }
}

proof fn lemma_escape_no_fend(d: Seq<u8>)
    ensures
        forall|i: int| 0 <= i < escape_seq(d).len() ==> escape_seq(d)[i] != FEND,
    decreases d.len(),
{
    if d.len() > 0 {
        lemma_escape_no_fend(d.drop_first());
        let h = escape_byte(d[0]);
        let t = escape_seq(d.drop_first());
        assert forall|i: int| 0 <= i < escape_seq(d).len() implies escape_seq(d)[i] != FEND by {
            if i >= h.len() {
                assert(escape_seq(d)[i] == t[i - h.len()]);
            }
        }
    }
}

proof fn lemma_unescape_escape(d: Seq<u8>)
    ensures
        unescape(escape_seq(d), false) == d,
    decreases d.len(),
{
    if d.len() > 0 {
        let b = d[0];
        let t = escape_seq(d.drop_first());
        lemma_unescape_escape(d.drop_first());
        let x = escape_byte(b) + t;
        if b == FEND || b == FESC {
            assert(x.drop_first() =~= seq![if b == FEND { TFEND } else { TFESC }] + t);
            assert(x.drop_first().drop_first() =~= t);
            assert(x[0] == FESC);
            let y = x.drop_first();
            assert(y[0] == (if b == FEND { TFEND } else { TFESC }));
            assert(unescape(y, true) =~= seq![b] + unescape(t, false));
            assert(unescape(x, false) =~= seq![b] + unescape(t, false));
        } else {
            assert(x.drop_first() =~= t);
            assert(x[0] == b);
            assert(unescape(x, false) =~= seq![b] + unescape(t, false));
        }
        assert(seq![b] + d.drop_first() =~= d);
    }
}

proof fn lemma_first_fend_at(d: Seq<u8>, i: int, j: int)
    requires
        0 <= i <= j < d.len(),
        d[j] == FEND,
        forall|k: int| i <= k < j ==> d[k] != FEND,
    ensures
        first_fend_from(d, i) == j,
    decreases j - i,
{
    if i < j {
        lemma_first_fend_at(d, i + 1, j);
    }
}

/// Decoding input that starts with an encoded frame gives that frame's port
/// and payload back and reads exactly its bytes, whatever follows. (A port of
/// twelve is left out: its command byte is the delimiter itself.)
pub proof fn lemma_decode_encoded(p: Seq<u8>, port: u8, rest: Seq<u8>)
    requires
        port & 0x0Fu8 != 12,
    ensures
        decode_spec(kiss_frame(p, port) + rest) == Some(
            (port & 0x0Fu8, kiss_frame(p, port).len(), p),
        ),
{
    let cmd = data_cmd(port);
    let es = escape_seq(p);
    let d = kiss_frame(p, port) + rest;
    let e: int = 2 + es.len() as int;
    assert(cmd != FEND && cmd != FESC && cmd >> 4u8 == port & 0x0Fu8) by (bit_vector)
        requires
            port & 0x0Fu8 != 12,
            cmd == 0u8 | ((port & 0x0Fu8) << 4u8),
    ;
    lemma_escape_no_fend(p);
    assert(d[0] == FEND);
    assert(d[1] == cmd);
    assert(d[e] == FEND);
    assert forall|k: int| 1 <= k < e implies d[k] != FEND by {
        if k >= 2 {
            assert(d[k] == es[k - 2]);
        }
    }
    lemma_first_fend_at(d, 0, 0);
    assert(fend_run_end(d, 0) == 0);
    lemma_first_fend_at(d, 1, e);
    let c = d.subrange(1, e);
    assert(c =~= seq![cmd] + es);
    assert(c.drop_first() =~= es);
    lemma_unescape_escape(p);
    let u = unescape(c, false);
    assert(u =~= seq![cmd] + p);
    assert(u.drop_first() =~= p);
}

/// The frames of `ps`, each encoded on `port`, back to back.
pub open spec fn kiss_stream(ps: Seq<Seq<u8>>, port: u8) -> Seq<u8>
    decreases ps.len(),
{
    if ps.len() == 0 {
        seq![]
    } else {
        kiss_frame(ps[0], port) + kiss_stream(ps.drop_first(), port)
    }
}

/// The payloads of `n` frames decoded one at a time from `d`, each time
/// draining the bytes read; none where a decode finds no frame.
pub open spec fn decode_n(d: Seq<u8>, n: nat) -> Option<Seq<Seq<u8>>>
    decreases n,
{
    if n == 0 {
        Some(seq![])
    } else {
        match decode_spec(d) {
            Some((_, read, p)) => if read <= d.len() {
                match decode_n(d.subrange(read as int, d.len() as int), (n - 1) as nat) {
                    Some(ps) => Some(seq![p] + ps),
                    None => None,
                }
            } else {
                None
            },
            None => None,
        }
    }
}

/// Frames encoded back to back into one buffer and decoded one at a time,
/// draining the bytes read after each, come out as the payloads put in, in
/// order.
pub proof fn lemma_decode_stream(ps: Seq<Seq<u8>>, port: u8)
    requires
        port & 0x0Fu8 != 12,
    ensures
        decode_n(kiss_stream(ps, port), ps.len()) == Some(ps),
    decreases ps.len(),
{
    if ps.len() > 0 {
        let f = kiss_frame(ps[0], port);
        let tail = kiss_stream(ps.drop_first(), port);
        lemma_decode_encoded(ps[0], port, tail);
        let d = kiss_stream(ps, port);
        assert(d.subrange(f.len() as int, d.len() as int) =~= tail);
        lemma_decode_stream(ps.drop_first(), port);
        assert(seq![ps[0]] + ps.drop_first() =~= ps);
    }
}

} // verus!
