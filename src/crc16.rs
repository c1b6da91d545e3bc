//! CRC-CCITT-16 (polynomial `0x1021`, initial value `0xFFFF`, sixteen zero
//! bits appended) over byte and word streams.
use vstd::prelude::*;

verus! {

/// The generator polynomial, without its `x^16` term.
pub const CRC_POLY: u16 = 0x1021;

/// Running checksum state.
pub type CRC = u16;

/// One register step: shift `s` left, take `bit` (0 or 1) in at the bottom,
/// and reduce by the polynomial when a one fell out at the top.
pub open spec fn crc_bit(s: u16, bit: u16) -> u16 {
    let t = (s << 1u16) | bit;
    if s & 0x8000u16 == 0x8000u16 {
        t ^ 0x1021u16
    } else {
        t
    }
}

/// Bit `k` of byte `b`, counting from the most significant.
pub open spec fn byte_bit(b: u8, k: nat) -> u16 {
    ((b >> (7 - k) as u8) & 1u8) as u16
}

/// The state after the `n` most significant bits of `b`.
pub open spec fn crc_byte_bits(s: u16, b: u8, n: nat) -> u16
    decreases n,
{
    if n == 0 {
        s
    } else {
        crc_bit(crc_byte_bits(s, b, (n - 1) as nat), byte_bit(b, (n - 1) as nat))
    }
}

/// The state after a whole byte, most significant bit first.
pub open spec fn crc_byte(s: u16, b: u8) -> u16 {
    crc_byte_bits(s, b, 8)
}

/// The state after a run of bytes.
pub open spec fn crc_bytes(s: u16, d: Seq<u8>) -> u16
    decreases d.len(),
{
    if d.len() == 0 {
        s
    } else {
        crc_byte(crc_bytes(s, d.drop_last()), d.last())
    }
}

/// The state after `n` zero bits.
pub open spec fn crc_zeros(s: u16, n: nat) -> u16
    decreases n,
{
    if n == 0 {
        s
    } else {
        crc_bit(crc_zeros(s, (n - 1) as nat), 0)
    }
}

/// The finished checksum of a state: sixteen zero bits are fed.
pub open spec fn crc_finish(s: u16) -> u16 {
    crc_zeros(s, 16)
}

/// The checksum of a byte sequence.
pub open spec fn crc_of(d: Seq<u8>) -> u16 {
    crc_finish(crc_bytes(0xFFFF, d))
}

/// The four bytes of `v`, most significant first.
pub open spec fn be_bytes32(v: u32) -> Seq<u8> {
    seq![(v >> 24u32) as u8, (v >> 16u32) as u8, (v >> 8u32) as u8, v as u8]
}

/// The two bytes of `v`, most significant first.
pub open spec fn be_bytes16(v: u16) -> Seq<u8> {
    seq![(v >> 8u16) as u8, v as u8]
}

/// A fresh checksum state.
pub fn new() -> (r: CRC)
    ensures
        r == 0xFFFF,
{
    0xFFFF
}

/// Feeds one byte, most significant bit first.
pub fn update_u8(byte: u8, crc: CRC) -> (r: CRC)
    ensures
        r == crc_byte(crc, byte),
{
    let mut c = crc;
    let mut i: u8 = 0;
    while i < 8
        invariant
            i <= 8,
            c == crc_byte_bits(crc, byte, i as nat),
        decreases 8 - i,
    {
        let xor_flag = c & 0x8000 == 0x8000;
        let bit: u16 = ((byte >> (7 - i)) & 1) as u16;
        c = (c << 1) | bit;
        if xor_flag {
            c = c ^ CRC_POLY;
        }
        i = i + 1;
    }
    c
}

/// Feeds a word as its four big-endian bytes.
pub fn update_u32(word: u32, crc: CRC) -> (r: CRC)
    ensures
        r == crc_bytes(crc, be_bytes32(word)),
{
    let bytes: [u8; 4] = [(word >> 24) as u8, (word >> 16) as u8, (word >> 8) as u8, word as u8];
    let mut c = crc;
    let mut i: usize = 0;
    while i < 4
        invariant
            i <= 4,
            bytes@ == be_bytes32(word),
            c == crc_bytes(crc, be_bytes32(word).subrange(0, i as int)),
        decreases 4 - i,
    {
        proof {
            let p = be_bytes32(word).subrange(0, i + 1);
            assert(p.drop_last() =~= be_bytes32(word).subrange(0, i as int));
        }
        c = update_u8(bytes[i], c);
        i = i + 1;
    }
    assert(be_bytes32(word).subrange(0, 4) =~= be_bytes32(word));
    c
}

/// Finishes a checksum by feeding sixteen zero bits.
pub fn finish(crc: CRC) -> (r: CRC)
    ensures
        r == crc_finish(crc),
{
    let mut c = crc;
    let mut i: u8 = 0;
    while i < 16
        invariant
            i <= 16,
            c == crc_zeros(crc, i as nat),
        decreases 16 - i,
    {
        let xor_flag = c & 0x8000 == 0x8000;
        c = (c << 1) | 0;
        if xor_flag {
            c = c ^ CRC_POLY;
        }
        i = i + 1;
    }
    c
}

/// The checksum of a run of bytes.
pub fn calc(data: &[u8]) -> (r: CRC)
    ensures
        r == crc_of(data@),
{
    let mut c = new();
    let mut i: usize = 0;
    while i < data.len()
        invariant
            i <= data@.len(),
            c == crc_bytes(0xFFFF, data@.subrange(0, i as int)),
        decreases data@.len() - i,
    {
        proof {
            assert(data@.subrange(0, i + 1).drop_last() =~= data@.subrange(0, i as int));
        }
        c = update_u8(data[i], c);
        i = i + 1;
    }
    assert(data@.subrange(0, data@.len() as int) =~= data@);
    finish(c)
}

/// Feeding a word to `update_u32` is feeding its four big-endian bytes to
/// `update_u8` in order.
pub proof fn lemma_update_u32_is_four_bytes(s: u16, w: u32)
    ensures
        crc_bytes(s, be_bytes32(w)) == crc_byte(
            crc_byte(crc_byte(crc_byte(s, (w >> 24u32) as u8), (w >> 16u32) as u8), (w >> 8u32) as u8),
            w as u8,
        ),
{
    let b = be_bytes32(w);
    assert(b.drop_last() =~= seq![(w >> 24u32) as u8, (w >> 16u32) as u8, (w >> 8u32) as u8]);
    assert(b.drop_last().drop_last() =~= seq![(w >> 24u32) as u8, (w >> 16u32) as u8]);
    assert(b.drop_last().drop_last().drop_last() =~= seq![(w >> 24u32) as u8]);
    assert(b.drop_last().drop_last().drop_last().drop_last() =~= Seq::<u8>::empty());
    reveal_with_fuel(crc_bytes, 5);
}

/// Bytewise exclusive or of two sequences of one length.
pub open spec fn xor_seq(d: Seq<u8>, e: Seq<u8>) -> Seq<u8> {
    Seq::new(d.len(), |i: int| d[i] ^ e[i])
}

proof fn lemma_crc_bit_xor(a: u16, b: u16, x: u16, y: u16)
    requires
        x <= 1,
        y <= 1,
    ensures
        crc_bit(a, x) ^ crc_bit(b, y) == crc_bit(a ^ b, x ^ y),
{
    assert((if a & 0x8000u16 == 0x8000u16 {
        ((a << 1u16) | x) ^ 0x1021u16
    } else {
        (a << 1u16) | x
    }) ^ (if b & 0x8000u16 == 0x8000u16 {
        ((b << 1u16) | y) ^ 0x1021u16
    } else {
        (b << 1u16) | y
    }) == (if (a ^ b) & 0x8000u16 == 0x8000u16 {
        (((a ^ b) << 1u16) | (x ^ y)) ^ 0x1021u16
    } else {
        ((a ^ b) << 1u16) | (x ^ y)
    })) by (bit_vector)
        requires
            x <= 1,
            y <= 1,
    ;
}

proof fn lemma_crc_bit_nonzero(s: u16)
    requires
        s != 0,
    ensures
        crc_bit(s, 0) != 0,
{
    assert((if s & 0x8000u16 == 0x8000u16 {
        ((s << 1u16) | 0u16) ^ 0x1021u16
    } else {
        (s << 1u16) | 0u16
    }) != 0) by (bit_vector)
        requires
            s != 0,
    ;
}

proof fn lemma_byte_bit_xor(p: u8, q: u8, k: nat)
    requires
        k < 8,
    ensures
        byte_bit(p, k) <= 1,
        byte_bit(p, k) ^ byte_bit(q, k) == byte_bit(p ^ q, k),
{
    let j = (7 - k) as u8;
    assert((((p >> j) & 1u8) as u16) <= 1 && (((p >> j) & 1u8) as u16) ^ (((q >> j) & 1u8) as u16)
        == ((((p ^ q) >> j) & 1u8) as u16)) by (bit_vector);
}

proof fn lemma_crc_byte_bits_xor(a: u16, b: u16, p: u8, q: u8, n: nat)
    requires
        n <= 8,
    ensures
        crc_byte_bits(a, p, n) ^ crc_byte_bits(b, q, n) == crc_byte_bits(a ^ b, p ^ q, n),
    decreases n,
{
    if n > 0 {
        let k = (n - 1) as nat;
        lemma_crc_byte_bits_xor(a, b, p, q, k);
        lemma_byte_bit_xor(p, q, k);
        lemma_byte_bit_xor(q, p, k);
        lemma_crc_bit_xor(
            crc_byte_bits(a, p, k),
            crc_byte_bits(b, q, k),
            byte_bit(p, k),
            byte_bit(q, k),
        );
    }
}

proof fn lemma_crc_bytes_xor(a: u16, b: u16, d: Seq<u8>, e: Seq<u8>)
    requires
        d.len() == e.len(),
    ensures
        crc_bytes(a, d) ^ crc_bytes(b, e) == crc_bytes(a ^ b, xor_seq(d, e)),
    decreases d.len(),
{
    if d.len() > 0 {
        lemma_crc_bytes_xor(a, b, d.drop_last(), e.drop_last());
        assert(xor_seq(d, e).drop_last() =~= xor_seq(d.drop_last(), e.drop_last()));
        lemma_crc_byte_bits_xor(
            crc_bytes(a, d.drop_last()),
            crc_bytes(b, e.drop_last()),
            d.last(),
            e.last(),
            8,
        );
    }
}

proof fn lemma_crc_zeros_xor(a: u16, b: u16, n: nat)
    ensures
        crc_zeros(a, n) ^ crc_zeros(b, n) == crc_zeros(a ^ b, n),
    decreases n,
{
    if n > 0 {
        lemma_crc_zeros_xor(a, b, (n - 1) as nat);
        lemma_crc_bit_xor(crc_zeros(a, (n - 1) as nat), crc_zeros(b, (n - 1) as nat), 0, 0);
        assert(0u16 ^ 0u16 == 0u16) by (bit_vector);
    }
}

proof fn lemma_crc_zeros_nonzero(s: u16, n: nat)
    requires
        s != 0,
    ensures
        crc_zeros(s, n) != 0,
    decreases n,
{
    if n > 0 {
        lemma_crc_zeros_nonzero(s, (n - 1) as nat);
        lemma_crc_bit_nonzero(crc_zeros(s, (n - 1) as nat));
    }
}

proof fn lemma_crc_byte_bits_zero_byte(s: u16, n: nat)
    requires
        s != 0,
        n <= 8,
    ensures
        crc_byte_bits(s, 0, n) != 0,
    decreases n,
{
    if n > 0 {
        lemma_crc_byte_bits_zero_byte(s, (n - 1) as nat);
        let j = (7 - (n - 1)) as u8;
        assert(((0u8 >> j) & 1u8) as u16 == 0u16) by (bit_vector);
        lemma_crc_bit_nonzero(crc_byte_bits(s, 0, (n - 1) as nat));
    }
}

proof fn lemma_crc_byte_bits_from_zero(p: u8, n: nat)
    requires
        n <= 8,
    ensures
        crc_byte_bits(0, p, n) == ((p as u16) >> ((8 - n) as u16)),
    decreases n,
{
    if n == 0 {
        assert((p as u16) >> 8u16 == 0u16) by (bit_vector);
    } else {
        let k = (n - 1) as nat;
        lemma_crc_byte_bits_from_zero(p, k);
        let m = (8 - n) as u16;
        let j = (7 - k) as u8;
        assert(j as u16 == m);
        assert((((p as u16) >> (m + 1u16)) & 0x8000u16 != 0x8000u16) && ((((p as u16) >> (m
            + 1u16)) << 1u16) | (((p >> j) & 1u8) as u16)) == ((p as u16) >> m)) by (bit_vector)
            requires
                m < 8,
                j as u16 == m,
        ;
    }
}

proof fn lemma_crc_bytes_zeros_from_zero(n: nat)
    ensures
        crc_bytes(0, Seq::new(n, |i: int| 0u8)) == 0,
    decreases n,
{
    if n > 0 {
        let z = Seq::new(n, |i: int| 0u8);
        assert(z.drop_last() =~= Seq::new((n - 1) as nat, |i: int| 0u8));
        lemma_crc_bytes_zeros_from_zero((n - 1) as nat);
        lemma_crc_byte_bits_from_zero(0, 8);
        assert((0u8 as u16) >> 0u16 == 0u16) by (bit_vector);
    }
}

proof fn lemma_crc_bytes_zeros_nonzero(s: u16, n: nat)
    requires
        s != 0,
    ensures
        crc_bytes(s, Seq::new(n, |i: int| 0u8)) != 0,
    decreases n,
{
    if n > 0 {
        let z = Seq::new(n, |i: int| 0u8);
        assert(z.drop_last() =~= Seq::new((n - 1) as nat, |i: int| 0u8));
        lemma_crc_bytes_zeros_nonzero(s, (n - 1) as nat);
        lemma_crc_byte_bits_zero_byte(crc_bytes(s, z.drop_last()), 8);
    }
}

/// Feeding `x` then `y` is feeding their concatenation.
pub proof fn lemma_crc_bytes_append(s: u16, x: Seq<u8>, y: Seq<u8>)
    ensures
        crc_bytes(s, x + y) == crc_bytes(crc_bytes(s, x), y),
    decreases y.len(),
{
    if y.len() == 0 {
        assert(x + y =~= x);
    } else {
        assert((x + y).drop_last() =~= x + y.drop_last());
        lemma_crc_bytes_append(s, x, y.drop_last());
    }
}

/// Flipping any one bit of a non-empty byte sequence changes its checksum.
pub proof fn lemma_crc_detects_bit_flip(d: Seq<u8>, i: int, k: u8)
    requires
        0 <= i < d.len(),
        k < 8,
    ensures
        crc_of(d.update(i, d[i] ^ (1u8 << k))) != crc_of(d),
{
    let m: u8 = 1u8 << k;
    let e = d.update(i, d[i] ^ m);
    let x = xor_seq(d, e);
    let pre = Seq::new(i as nat, |j: int| 0u8);
    let post = Seq::new((d.len() - i - 1) as nat, |j: int| 0u8);
    let di = d[i];
    assert(m != 0 && di ^ (di ^ m) == m) by (bit_vector)
        requires
            k < 8,
            m == 1u8 << k,
    ;
    assert forall|j: int| 0 <= j < d.len() && j != i implies #[trigger] x[j] == 0u8 by {
        let dj = d[j];
        assert(dj ^ dj == 0u8) by (bit_vector);
    }
    assert(x =~= pre + seq![m] + post);
    lemma_crc_bytes_xor(0xFFFF, 0xFFFF, d, e);
    assert(0xFFFFu16 ^ 0xFFFFu16 == 0u16) by (bit_vector);
    lemma_crc_bytes_append(0, pre + seq![m], post);
    lemma_crc_bytes_append(0, pre, seq![m]);
    lemma_crc_bytes_zeros_from_zero(i as nat);
    assert(seq![m].drop_last() =~= Seq::<u8>::empty());
    lemma_crc_byte_bits_from_zero(m, 8);
    assert((m as u16) >> 0u16 != 0u16) by (bit_vector)
        requires
            m != 0,
    ;
    let mid = crc_bytes(0, pre + seq![m]);
    assert(crc_bytes(0, seq![m]) == crc_byte(crc_bytes(0, Seq::<u8>::empty()), m));
    assert(mid != 0);
    lemma_crc_bytes_zeros_nonzero(mid, (d.len() - i - 1) as nat);
    lemma_crc_zeros_xor(crc_bytes(0xFFFF, d), crc_bytes(0xFFFF, e), 16);
    lemma_crc_zeros_nonzero(crc_bytes(0, x), 16);
    let fd = crc_of(d);
    let fe = crc_of(e);
    assert(crc_bytes(0, x) != 0);
    assert(fd ^ fe != 0u16);
    assert(fd ^ fe != 0u16 ==> fe != fd) by (bit_vector);
}

} // verus!
