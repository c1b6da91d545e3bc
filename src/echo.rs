//! A loopback transport: what is written is read back, first in first out.
use vstd::prelude::*;

verus! {

/// Bytes written and not yet read.
pub struct Port {
    buffer: Vec<u8>,
}

impl Port {
    /// The bytes waiting to be read.
    pub closed spec fn pending(&self) -> Seq<u8> {
        self.buffer@
    }

    /// Reads up to `max` bytes, oldest first; none when nothing waits.
    pub fn read(&mut self, max: usize) -> (r: Vec<u8>)
        ensures
            r@ == old(self).pending().take(
                if max < old(self).pending().len() {
                    max as int
                } else {
                    old(self).pending().len() as int
                },
            ),
            final(self).pending() == old(self).pending().skip(r@.len() as int),
    {
        let n = if max < self.buffer.len() {
            max
        } else {
            self.buffer.len()
        };
        let mut r: Vec<u8> = Vec::new();
        let mut rest: Vec<u8> = Vec::new();
        let mut i: usize = 0;
        while i < self.buffer.len()
            invariant
                n <= self.buffer@.len(),
                self.buffer@ == old(self).buffer@,
                i <= self.buffer@.len(),
                i <= n ==> r@ == self.buffer@.take(i as int) && rest@ == Seq::<u8>::empty(),
                i > n ==> r@ == self.buffer@.take(n as int) && rest@ == self.buffer@.subrange(
                    n as int,
                    i as int,
                ),
            decreases self.buffer@.len() - i,
        {
            if i < n {
                r.push(self.buffer[i]);
                assert(self.buffer@.take(i + 1) =~= self.buffer@.take(i as int).push(
                    self.buffer@[i as int],
                ));
            } else {
                rest.push(self.buffer[i]);
                assert(self.buffer@.subrange(n as int, i + 1) =~= self.buffer@.subrange(
                    n as int,
                    i as int,
                ).push(self.buffer@[i as int]));
            }
            i = i + 1;
        }
        if self.buffer.len() <= n {
            assert(self.buffer@.take(i as int) =~= self.buffer@.take(n as int));
        }
        assert(self.buffer@.skip(n as int) =~= rest@);
        self.buffer = rest;
        r
    }

    /// Appends `buf`; returns its length.
    pub fn write(&mut self, buf: &[u8]) -> (r: usize)
        ensures
            final(self).pending() == old(self).pending() + buf@,
            r == buf@.len(),
    {
        let mut i: usize = 0;
        while i < buf.len()
            invariant
                i <= buf@.len(),
                self.buffer@ == old(self).buffer@ + buf@.take(i as int),
            decreases buf@.len() - i,
        {
            self.buffer.push(buf[i]);
            assert(buf@.take(i + 1) =~= buf@.take(i as int).push(buf@[i as int]));
            i = i + 1;
        }
        assert(buf@.take(buf@.len() as int) =~= buf@);
        buf.len()
    }

    /// Nothing to flush: writes land at once.
    pub fn flush(&mut self)
        ensures
            final(self).pending() == old(self).pending(),
    {
    }
}

/// An empty loopback port.
pub fn new() -> (r: Port)
    ensures
        r.pending() == Seq::<u8>::empty(),
{
    let r = Port { buffer: Vec::new() };
    assert(r.pending() =~= Seq::<u8>::empty());
    r
}

} // verus!
