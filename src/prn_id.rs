//! Packet identifiers: a 32-bit linear feedback shift register whose state is
//! XORed with the station's callsign, so that stations draw from disjoint
//! streams.
use vstd::prelude::*;

verus! {

/// A packet identifier.
pub type PrnValue = u32;

/// State of the first register (all ones).
pub const PRN_START: u32 = 0xFFFF_FFFF;

/// Packet identifier generator.
pub struct PRN {
    /// Register state.
    pub current: u32,
    /// Callsign XORed into every identifier handed out.
    pub callsign: u32,
}

/// One register step of the polynomial `1 + x^25 + x^26 + x^30 + x^32`.
pub open spec fn lfsr_step(c: u32) -> u32 {
    let bit = ((c >> 7u32) ^ (c >> 6u32) ^ (c >> 2u32) ^ c) & 1u32;
    (c >> 1u32) | (bit << 31u32)
}

/// The register after `n` steps from `c`.
pub open spec fn lfsr_iter(c: u32, n: nat) -> u32
    decreases n,
{
    if n == 0 {
        c
    } else {
        lfsr_step(lfsr_iter(c, (n - 1) as nat))
    }
}

/// The identifiers that `n` calls of `next` return from register `c`.
pub open spec fn prn_outputs(c: u32, callsign: u32, n: nat) -> Seq<u32> {
    Seq::new(n, |i: int| lfsr_iter(c, (i + 1) as nat) ^ callsign)
}

/// A generator for `callsign`, its register at the start value.
pub fn new(callsign: u32) -> (r: PRN)
    ensures
        r.current == PRN_START,
        r.callsign == callsign,
{
    PRN { current: PRN_START, callsign }
}

impl PRN {
    /// Steps the register and returns the new identifier.
    pub fn next(&mut self) -> (r: PrnValue)
        ensures
            final(self).current == lfsr_step(old(self).current),
            final(self).callsign == old(self).callsign,
            r == final(self).current ^ final(self).callsign,
            old(self).current != 0 ==> final(self).current != 0,
    {
        let c = self.current;
        let bit = ((c >> 7) ^ (c >> 6) ^ (c >> 2) ^ c) & 1;
        self.current = (c >> 1) | (bit << 31);
        proof {
            assert(c != 0 ==> (c >> 1u32) | ((((c >> 7u32) ^ (c >> 6u32) ^ (c >> 2u32) ^ c) & 1u32)
                << 31u32) != 0) by (bit_vector);
        }
        self.current()
    }

    /// The identifier of the current register state.
    pub fn current(&self) -> (r: PrnValue)
        ensures
            r == self.current ^ self.callsign,
    {
        self.current ^ self.callsign
    }

    /// Sets the register state.
    pub fn seed(&mut self, seed: PrnValue)
        ensures
            final(self).current == seed,
            final(self).callsign == old(self).callsign,
    {
        self.current = seed;
    }
}

/// Two generators on one register state but different callsigns never hand
/// out the same identifier at the same step: the two identifiers differ by
/// the XOR of the callsigns.
pub proof fn lemma_prn_streams_differ(c: u32, callsign1: u32, callsign2: u32, n: nat, i: int)
    requires
        callsign1 != callsign2,
        0 <= i < n,
    ensures
        prn_outputs(c, callsign1, n)[i] != prn_outputs(c, callsign2, n)[i],
        prn_outputs(c, callsign1, n)[i] ^ prn_outputs(c, callsign2, n)[i] == callsign1 ^ callsign2,
{
    let v = lfsr_iter(c, (i + 1) as nat);
    assert(v ^ callsign1 != v ^ callsign2 && (v ^ callsign1) ^ (v ^ callsign2) == callsign1
        ^ callsign2) by (bit_vector)
        requires
            callsign1 != callsign2,
    ;
}

/// After `seed(v)`, the identifiers that follow depend on `v` and the callsign
/// alone: two generators of one callsign seeded alike hand out the same run.
pub proof fn lemma_prn_reproducible(p1: PRN, p2: PRN, v: u32, n: nat)
    requires
        p1.callsign == p2.callsign,
    ensures
        prn_outputs(PRN { current: v, ..p1 }.current, p1.callsign, n) == prn_outputs(
            PRN { current: v, ..p2 }.current,
            p2.callsign,
            n,
        ),
{
}

} // verus!
