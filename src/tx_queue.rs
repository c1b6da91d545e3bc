//! Transmit queue: frames waiting for an acknowledgement, their payloads kept
//! back to back in one buffer, retried with randomized backoff and dropped
//! after a fixed number of attempts or under congestion.
use vstd::prelude::*;
use rand::distributions::IndependentSample;
use crate::frame::Frame;

verus! {

/// Largest number of frames in flight.
pub const MAX_PACKET: usize = 256;

/// Payload bytes the queue holds at most.
pub const BLOCK_SIZE: usize = 50 * 1024;

/// Payload bytes in flight above which retried frames are dropped too.
pub const CONGEST_CONTROL: usize = 35 * 1024;

/// Number of retries before a frame is dropped.
pub const RETRY_COUNT: usize = 4;

/// Base delay before a frame is sent again, in milliseconds.
pub const RETRY_DELAY_MS: usize = 500;

/// Why a frame was not queued.
#[derive(Debug, PartialEq, Eq, Structural)]
pub enum QueueError {
    /// The payload would take the queue over `BLOCK_SIZE`.
    Discarded,
}

/// A frame waiting for its acknowledgement.
#[derive(Clone, Copy, Debug)]
pub struct PendingPacket {
    /// The frame header.
    pub packet: Frame,
    /// Milliseconds until it is sent again.
    pub next_send: usize,
    /// Retries made so far.
    pub retry_count: usize,
    /// Where its payload starts in the queue's buffer.
    pub data_offset: usize,
    /// Length of its payload.
    pub data_size: usize,
}

/// Frames waiting for acknowledgement.
pub struct Queue {
    pending: Vec<PendingPacket>,
    data: Vec<u8>,
}

/// A queued frame as the contracts see it.
pub struct QEntry {
    pub frame: Frame,
    pub payload: Seq<u8>,
    pub next_send: usize,
    pub retry_count: usize,
}

/// Total payload bytes of `es`.
pub open spec fn total_bytes(es: Seq<QEntry>) -> int
    decreases es.len(),
{
    if es.len() == 0 {
        0
    } else {
        total_bytes(es.drop_last()) + es.last().payload.len()
    }
}

/// Sum of the payload sizes of the first `n` pending frames.
pub open spec fn sizes_sum(p: Seq<PendingPacket>, n: int) -> int
    decreases n,
{
    if n <= 0 {
        0
    } else {
        sizes_sum(p, n - 1) + p[n - 1].data_size
    }
}

/// Index of the first entry for packet `prn`, or `es.len()`.
pub open spec fn find_prn(es: Seq<QEntry>, prn: u32) -> int
    decreases es.len(),
{
    if es.len() == 0 {
        0
    } else if es[0].frame.prn == prn {
        0
    } else {
        1 + find_prn(es.drop_first(), prn)
    }
}

impl Queue {
    /// The queued frames in order, each with its payload.
    pub closed spec fn entries(&self) -> Seq<QEntry> {
        Seq::new(
            self.pending@.len(),
            |i: int|
                QEntry {
                    frame: self.pending@[i].packet,
                    payload: self.data@.subrange(
                        self.pending@[i].data_offset as int,
                        self.pending@[i].data_offset + self.pending@[i].data_size,
                    ),
                    next_send: self.pending@[i].next_send,
                    retry_count: self.pending@[i].retry_count,
                },
        )
    }

    /// The payloads lie back to back in the buffer, in queue order, and fill it.
    pub closed spec fn wf(&self) -> bool {
        &&& forall|i: int|
            0 <= i < self.pending@.len() ==> #[trigger] self.pending@[i].data_offset == sizes_sum(
                self.pending@,
                i,
            )
        &&& self.data@.len() == sizes_sum(self.pending@, self.pending@.len() as int)
        &&& self.data@.len() <= BLOCK_SIZE
        &&& forall|i: int|
            0 <= i < self.pending@.len() ==> #[trigger] self.pending@[i].retry_count <= RETRY_COUNT
    }
}

proof fn lemma_sizes_mono(p: Seq<PendingPacket>, i: int, j: int)
    requires
        0 <= i <= j,
    ensures
        sizes_sum(p, i) <= sizes_sum(p, j),
    decreases j,
{
    if i < j {
        lemma_sizes_mono(p, i, j - 1);
    }
}

proof fn lemma_sizes_prefix(p: Seq<PendingPacket>, q: Seq<PendingPacket>, n: int)
    requires
        0 <= n <= p.len(),
        n <= q.len(),
        forall|i: int| 0 <= i < n ==> p[i].data_size == q[i].data_size,
    ensures
        sizes_sum(p, n) == sizes_sum(q, n),
    decreases n,
{
    if n > 0 {
        lemma_sizes_prefix(p, q, n - 1);
    }
}

impl Queue {
    proof fn lemma_payload_bounds(&self, i: int)
        requires
            self.wf(),
            0 <= i < self.pending@.len(),
        ensures
            self.pending@[i].data_offset + self.pending@[i].data_size <= self.data@.len(),
            self.entries()[i].payload.len() == self.pending@[i].data_size,
    {
        lemma_sizes_mono(self.pending@, i + 1, self.pending@.len() as int);
    }

    proof fn lemma_total(&self)
        requires
            self.wf(),
        ensures
            total_bytes(self.entries()) == self.data@.len(),
            self.entries().len() == self.pending@.len(),
    {
        let e = self.entries();
        let n = self.pending@.len() as int;
        assert forall|k: int| 0 <= k <= n implies total_bytes(#[trigger] e.take(k)) == sizes_sum(
            self.pending@,
            k,
        ) by {
            self.lemma_total_prefix(k);
        }
        assert(e.take(n) =~= e);
    }

    proof fn lemma_total_prefix(&self, k: int)
        requires
            self.wf(),
            0 <= k <= self.pending@.len(),
        ensures
            total_bytes(self.entries().take(k)) == sizes_sum(self.pending@, k),
        decreases k,
    {
        if k > 0 {
            self.lemma_total_prefix(k - 1);
            assert(self.entries().take(k).drop_last() =~= self.entries().take(k - 1));
            self.lemma_payload_bounds(k - 1);
        }
    }
}

/// An empty queue.
pub fn new() -> (r: Queue)
    ensures
        r.wf(),
        r.entries() == Seq::<QEntry>::empty(),
{
    let r = Queue { pending: Vec::new(), data: Vec::new() };
    assert(r.entries() =~= Seq::<QEntry>::empty());
    r
}

impl Queue {
    /// Payload bytes held.
    pub fn queued_bytes(&self) -> (r: usize)
        requires
            self.wf(),
        ensures
            r == total_bytes(self.entries()),
    {
        proof {
            self.lemma_total();
        }
        self.data.len()
    }

    /// Number of frames waiting for acknowledgement.
    pub fn pending_packets(&self) -> (r: usize)
        requires
            self.wf(),
        ensures
            r == self.entries().len(),
    {
        proof {
            self.lemma_total();
        }
        self.pending.len()
    }

    /// Queues `header` with `payload` after it was sent. Fails, and leaves the
    /// queue as it was, where the payload would take it over `BLOCK_SIZE`.
    pub fn enqueue(&mut self, header: Frame, payload: &[u8]) -> (r: Result<(), QueueError>)
        requires
            old(self).wf(),
        ensures
            final(self).wf(),
            r is Err <==> total_bytes(old(self).entries()) + payload@.len() > BLOCK_SIZE,
            r is Err ==> r == Err::<(), QueueError>(QueueError::Discarded) && final(self).entries()
                == old(self).entries(),
            r is Ok ==> final(self).entries() == old(self).entries().push(
                QEntry { frame: header, payload: payload@, next_send: RETRY_DELAY_MS, retry_count: 0 },
            ),
    {
        proof {
            self.lemma_total();
        }
        if payload.len() > BLOCK_SIZE - self.data.len() {
            return Err(QueueError::Discarded);
        }
        let ghost old_q = *self;
        let ghost old_entries = self.entries();
        let data_start = self.data.len();
        let mut i: usize = 0;
        while i < payload.len()
            invariant
                i <= payload@.len(),
                data_start == old_q.data@.len(),
                self.data@ == old_q.data@ + payload@.take(i as int),
                self.pending@ == old_q.pending@,
            decreases payload@.len() - i,
        {
            self.data.push(payload[i]);
            assert(payload@.take(i + 1) =~= payload@.take(i as int).push(payload@[i as int]));
            i = i + 1;
        }
        assert(payload@.take(payload@.len() as int) =~= payload@);
        self.pending.push(
            PendingPacket {
                packet: header,
                next_send: RETRY_DELAY_MS,
                retry_count: 0,
                data_offset: data_start,
                data_size: payload.len(),
            },
        );
        proof {
            let n = old_q.pending@.len() as int;
            lemma_sizes_prefix(old_q.pending@, self.pending@, n);
            assert forall|k: int| 0 <= k < self.pending@.len() implies #[trigger] self.pending@[k].data_offset
                == sizes_sum(self.pending@, k) by {
                if k < n {
                    lemma_sizes_prefix(old_q.pending@, self.pending@, k);
                }
            }
            assert forall|k: int| 0 <= k < n implies #[trigger] self.entries()[k] == old_entries[k] by {
                old_q.lemma_payload_bounds(k);
                assert(self.data@.subrange(
                    self.pending@[k].data_offset as int,
                    self.pending@[k].data_offset + self.pending@[k].data_size,
                ) =~= old_q.data@.subrange(
                    old_q.pending@[k].data_offset as int,
                    old_q.pending@[k].data_offset + old_q.pending@[k].data_size,
                ));
            }
            assert(self.data@.subrange(data_start as int, data_start + payload@.len()) =~= payload@);
            assert(self.entries() =~= old_entries.push(
                QEntry { frame: header, payload: payload@, next_send: RETRY_DELAY_MS, retry_count: 0 },
            ));
        }
        Ok(())
    }
}

proof fn lemma_sizes_remove(p: Seq<PendingPacket>, idx: int, n: int)
    requires
        0 <= idx < p.len(),
        0 <= n <= p.len() - 1,
    ensures
        sizes_sum(p.remove(idx), n) == if n <= idx {
            sizes_sum(p, n)
        } else {
            sizes_sum(p, n + 1) - p[idx].data_size
        },
    decreases n,
{
    if n > 0 {
        lemma_sizes_remove(p, idx, n - 1);
        let r = p.remove(idx);
        assert(r[n - 1] == if n - 1 < idx {
            p[n - 1]
        } else {
            p[n]
        });
        assert(sizes_sum(r, n) == sizes_sum(r, n - 1) + r[n - 1].data_size);
        assert(sizes_sum(p, n + 1) == sizes_sum(p, n) + p[n].data_size);
        assert(sizes_sum(p, n) == sizes_sum(p, n - 1) + p[n - 1].data_size);
    }
}

/// Pending frames with their offsets moved down by `size` where they stand at
/// or past `end`.
pub open spec fn shifted(p: Seq<PendingPacket>, end: int, size: int, upto: int) -> Seq<PendingPacket> {
    Seq::new(
        p.len(),
        |k: int|
            if k < upto && p[k].data_offset >= end {
                PendingPacket { data_offset: (p[k].data_offset - size) as usize, ..p[k] }
            } else {
                p[k]
            },
    )
}

impl Queue {
    /// Drops frame `idx` and its payload, closing the gap in the buffer.
    fn discard(&mut self, idx: usize)
        requires
            old(self).wf(),
            idx < old(self).entries().len(),
        ensures
            final(self).wf(),
            final(self).entries() == old(self).entries().remove(idx as int),
            final(self).data@.len() == old(self).data@.len() - old(self).entries()[idx as int].payload.len(),
    {
        let ghost old_q = *self;
        proof {
            self.lemma_payload_bounds(idx as int);
        }
        let data_start = self.pending[idx].data_offset;
        let size = self.pending[idx].data_size;
        let data_end = data_start + size;
        let len = self.data.len();
        let mut i: usize = data_start;
        while i < len - size
            invariant
                data_start <= i <= len - size,
                data_end == data_start + size <= len,
                len == old_q.data@.len(),
                self.data@.len() == len,
                self.pending@ == old_q.pending@,
                forall|x: int| 0 <= x < data_start ==> self.data@[x] == old_q.data@[x],
                forall|x: int| data_start <= x < i ==> self.data@[x] == old_q.data@[x + size],
                forall|x: int| i <= x < len ==> self.data@[x] == old_q.data@[x],
            decreases len - size - i,
        {
            let b = self.data[i + size];
            self.data[i] = b;
            i = i + 1;
        }
        let ghost moved = self.data@;
        self.data.truncate(len - size);
        assert forall|x: int| 0 <= x < len - size implies #[trigger] self.data@[x] == if x < data_start {
            old_q.data@[x]
        } else {
            old_q.data@[x + size]
        } by {
            assert(self.data@[x] == moved[x]);
        }
        let ghost truncated = self.data@;
        assert(truncated.len() == len - size);
        self.pending.remove(idx);
        let ghost removed = self.pending@;
        assert(removed == old_q.pending@.remove(idx as int));
        let mut j: usize = 0;
        while j < self.pending.len()
            invariant
                j <= self.pending@.len(),
                removed == old_q.pending@.remove(idx as int),
                self.data@ == truncated,
                self.pending@ == shifted(removed, data_end as int, size as int, j as int),
                data_end == data_start + size,
            decreases self.pending@.len() - j,
        {
            let mut p = self.pending[j];
            if p.data_offset >= data_end {
                p.data_offset = p.data_offset - size;
            }
            self.pending[j] = p;
            assert(self.pending@ =~= shifted(removed, data_end as int, size as int, j + 1));
            j = j + 1;
        }
        proof {
            let op = old_q.pending@;
            let np = self.pending@;
            let n = np.len() as int;
            assert forall|k: int| 0 <= k < n implies np[k].data_size == removed[k].data_size by {}
            lemma_sizes_prefix(np, removed, n);
            lemma_sizes_remove(op, idx as int, n);
            assert forall|k: int| 0 <= k < n implies #[trigger] np[k].data_offset == sizes_sum(np, k)
                by {
                lemma_sizes_prefix(np, removed, k);
                lemma_sizes_remove(op, idx as int, k);
                if k < idx {
                    lemma_sizes_mono(op, k + 1, idx as int);
                    if size > 0 {
                        assert(op[k].data_offset < data_end);
                    }
                } else {
                    lemma_sizes_mono(op, idx + 1, k + 1);
                }
            }
            assert(sizes_sum(op, n + 1) == sizes_sum(op, n) + op[n].data_size);
            assert(sizes_sum(np, n) == sizes_sum(removed, n));
            assert(len == sizes_sum(op, n + 1));
            assert(self.data@.len() == len - size);
            assert(self.data@.len() == sizes_sum(np, n));
            let ne = self.entries();
            let oe = old_q.entries().remove(idx as int);
            assert forall|k: int| 0 <= k < n implies #[trigger] ne[k] == oe[k] by {
                if k < idx {
                    old_q.lemma_payload_bounds(k);
                    lemma_sizes_mono(op, k + 1, idx as int);
                    assert(np[k] == op[k]);
                    assert(op[k].data_offset == sizes_sum(op, k));
                    assert(op[idx as int].data_offset == sizes_sum(op, idx as int));
                    assert(sizes_sum(op, k + 1) == sizes_sum(op, k) + op[k].data_size);
                    assert(np[k].data_offset + np[k].data_size <= data_start);
                    let off = np[k].data_offset as int;
                    assert forall|t: int| 0 <= t < np[k].data_size implies #[trigger] self.data@[off + t]
                        == old_q.data@[off + t] by {
                        assert(off + t < data_start);
                    }
                    assert(self.data@.subrange(
                        np[k].data_offset as int,
                        np[k].data_offset + np[k].data_size,
                    ) =~= old_q.data@.subrange(
                        op[k].data_offset as int,
                        op[k].data_offset + op[k].data_size,
                    ));
                } else {
                    old_q.lemma_payload_bounds(k + 1);
                    lemma_sizes_mono(op, idx + 1, k + 1);
                    let off = op[k + 1].data_offset as int;
                    assert(off >= data_end);
                    assert(np[k].data_offset == off - size);
                    assert forall|t: int| 0 <= t < np[k].data_size implies #[trigger] self.data@[off - size + t]
                        == old_q.data@[off + t] by {
                        assert(off - size + t >= data_start);
                    }
                    assert(self.data@.subrange(
                        np[k].data_offset as int,
                        np[k].data_offset + np[k].data_size,
                    ) =~= old_q.data@.subrange(
                        op[k + 1].data_offset as int,
                        op[k + 1].data_offset + op[k + 1].data_size,
                    ));
                }
            }
            assert(ne =~= oe);
        }
    }

    /// Drops the first frame waiting for packet `prn`'s acknowledgement and
    /// says whether there was one.
    pub fn ack_recv(&mut self, prn: u32) -> (r: bool)
        requires
            old(self).wf(),
        ensures
            final(self).wf(),
            r == (find_prn(old(self).entries(), prn) < old(self).entries().len()),
            r ==> final(self).entries() == old(self).entries().remove(
                find_prn(old(self).entries(), prn),
            ),
            !r ==> final(self).entries() == old(self).entries(),
    {
        proof {
            self.lemma_total();
        }
        let ghost e = self.entries();
        let mut i: usize = 0;
        assert(e.skip(0) =~= e);
        while i < self.pending.len()
            invariant
                self.wf(),
                e == self.entries(),
                e == old(self).entries(),
                e.len() == self.pending@.len(),
                i <= e.len(),
                find_prn(e, prn) == i + find_prn(e.skip(i as int), prn),
            decreases e.len() - i,
        {
            if self.pending[i].packet.prn == prn {
                assert(e[i as int].frame.prn == prn);
                assert(e.skip(i as int)[0] == e[i as int]);
                assert(find_prn(e.skip(i as int), prn) == 0);
                self.discard(i);
                return true;
            }
            assert(e.skip(i as int).drop_first() =~= e.skip(i + 1));
            i = i + 1;
        }
        assert(e.skip(i as int) =~= Seq::<QEntry>::empty());
        false
    }
}

/// What a tick reports of a frame.
pub enum QEvent {
    /// Sent again; the next attempt follows after the given milliseconds.
    Retry(Frame, Seq<u8>, usize),
    /// Dropped, after its last retry or under congestion.
    Expire(Frame, Seq<u8>),
}

/// What a tick reports of a frame, with its payload.
pub enum QueueEvent {
    /// The frame is to be sent again; the next attempt follows after
    /// `next_retry_ms`.
    Retry { frame: Frame, payload: Vec<u8>, next_retry_ms: usize },
    /// The frame was dropped.
    Expire { frame: Frame, payload: Vec<u8> },
}

impl View for QueueEvent {
    type V = QEvent;

    open spec fn view(&self) -> QEvent {
        match self {
            QueueEvent::Retry { frame, payload, next_retry_ms } => QEvent::Retry(
                *frame,
                payload@,
                *next_retry_ms,
            ),
            QueueEvent::Expire { frame, payload } => QEvent::Expire(*frame, payload@),
        }
    }
}

/// The payload an event carries.
pub open spec fn event_payload(e: QEvent) -> Seq<u8> {
    match e {
        QEvent::Retry(_, p, _) => p,
        QEvent::Expire(_, p) => p,
    }
}

/// The views of a run of events.
pub open spec fn events_view(v: Seq<QueueEvent>) -> Seq<QEvent> {
    Seq::new(v.len(), |i: int| v[i]@)
}

/// One frame's share of a tick of `elapsed` milliseconds, with `total`
/// payload bytes queued and jitter `j`: the frames kept (none or one), the
/// events, and the bytes queued afterwards. A frame that is due is retried
/// unless out of retries, its retry count going up first and its next
/// attempt set to `RETRY_DELAY_MS + retry_count * j`; it is dropped when out
/// of retries or when more than `CONGEST_CONTROL` bytes are queued. A frame
/// not yet due has its time cut by `elapsed`.
pub open spec fn tick_entry(e: QEntry, total: int, elapsed: usize, j: usize) -> (
    Seq<QEntry>,
    Seq<QEvent>,
    int,
) {
    if e.next_send <= elapsed {
        let discard = e.retry_count >= RETRY_COUNT || total > CONGEST_CONTROL;
        let retry = e.retry_count < RETRY_COUNT;
        let rc = if retry {
            (e.retry_count + 1) as usize
        } else {
            e.retry_count
        };
        let ns = if retry {
            (RETRY_DELAY_MS + rc * j) as usize
        } else {
            e.next_send
        };
        let evs = (if retry {
            seq![QEvent::Retry(e.frame, e.payload, ns)]
        } else {
            Seq::<QEvent>::empty()
        }) + (if discard {
            seq![QEvent::Expire(e.frame, e.payload)]
        } else {
            Seq::<QEvent>::empty()
        });
        if discard {
            (Seq::<QEntry>::empty(), evs, total - e.payload.len())
        } else {
            (seq![QEntry { next_send: ns, retry_count: rc, ..e }], evs, total)
        }
    } else {
        (
            seq![QEntry { next_send: (e.next_send - elapsed) as usize, ..e }],
            Seq::<QEvent>::empty(),
            total,
        )
    }
}

/// A tick over the frames `es` in order, frame `i` drawing jitter `js[i]`:
/// the frames kept and the events.
pub open spec fn tick_spec(es: Seq<QEntry>, total: int, elapsed: usize, js: Seq<usize>) -> (
    Seq<QEntry>,
    Seq<QEvent>,
)
    decreases es.len(),
{
    if es.len() == 0 {
        (Seq::<QEntry>::empty(), Seq::<QEvent>::empty())
    } else {
        let (k, ev, t) = tick_entry(es[0], total, elapsed, js[0]);
        let (k2, ev2) = tick_spec(es.drop_first(), t, elapsed, js.drop_first());
        (k + k2, ev + ev2)
    }
}

impl Queue {
    /// A copy of the payload of frame `idx`.
    pub fn packet_data(&self, idx: usize) -> (r: Vec<u8>)
        requires
            self.wf(),
            idx < self.entries().len(),
        ensures
            r@ == self.entries()[idx as int].payload,
    {
        proof {
            self.lemma_total();
            self.lemma_payload_bounds(idx as int);
        }
        let start = self.pending[idx].data_offset;
        let end = start + self.pending[idx].data_size;
        let mut r: Vec<u8> = Vec::new();
        let mut k: usize = start;
        while k < end
            invariant
                start <= k <= end <= self.data@.len(),
                r@ == self.data@.subrange(start as int, k as int),
            decreases end - k,
        {
            r.push(self.data[k]);
            assert(self.data@.subrange(start as int, k + 1) =~= self.data@.subrange(
                start as int,
                k as int,
            ).push(self.data@[k as int]));
            k = k + 1;
        }
        r
    }

    /// The pending frame at `idx`, with its offset in the buffer.
    pub fn pending_packet(&self, idx: usize) -> (r: PendingPacket)
        requires
            self.wf(),
            idx < self.entries().len(),
        ensures
            r.packet == self.entries()[idx as int].frame,
            r.next_send == self.entries()[idx as int].next_send,
            r.retry_count == self.entries()[idx as int].retry_count,
            r.data_size == self.entries()[idx as int].payload.len(),
    {
        proof {
            self.lemma_total();
            self.lemma_payload_bounds(idx as int);
        }
        self.pending[idx]
    }

    /// Sets the timer and retry count of frame `idx`.
    fn set_timer(&mut self, idx: usize, next_send: usize, retry_count: usize)
        requires
            old(self).wf(),
            idx < old(self).entries().len(),
            retry_count <= RETRY_COUNT,
        ensures
            final(self).wf(),
            final(self).entries() == old(self).entries().update(
                idx as int,
                QEntry { next_send, retry_count, ..old(self).entries()[idx as int] },
            ),
            final(self).data@ == old(self).data@,
    {
        let mut p = self.pending[idx];
        p.next_send = next_send;
        p.retry_count = retry_count;
        self.pending[idx] = p;
        proof {
            let n = self.pending@.len() as int;
            lemma_sizes_prefix(old(self).pending@, self.pending@, n);
            assert forall|k: int| 0 <= k < n implies #[trigger] self.pending@[k].data_offset
                == sizes_sum(self.pending@, k) by {
                lemma_sizes_prefix(old(self).pending@, self.pending@, k);
            }
        }
        assert(self.entries() =~= old(self).entries().update(
            idx as int,
            QEntry { next_send, retry_count, ..old(self).entries()[idx as int] },
        ));
    }
}

impl Queue {
    /// Runs the timers down by `elapsed_ms`: frames that are due are retried
    /// or dropped, in queue order, frame `i` drawing jitter `jitter[i]`.
    /// Returns what happened, in order.
    pub fn tick_with(&mut self, elapsed_ms: usize, jitter: &[usize]) -> (events: Vec<QueueEvent>)
        requires
            old(self).wf(),
            jitter@.len() >= old(self).entries().len(),
            forall|i: int| 0 <= i < jitter@.len() ==> jitter@[i] < RETRY_DELAY_MS,
        ensures
            final(self).wf(),
            (final(self).entries(), events_view(events@)) == tick_spec(
                old(self).entries(),
                total_bytes(old(self).entries()),
                elapsed_ms,
                jitter@,
            ),
            forall|k: int|
                0 <= k < events@.len() ==> event_payload(#[trigger] events@[k]@).len() <= BLOCK_SIZE,
    {
        let ghost orig = self.entries();
        let n0 = self.pending.len();
        assert(orig.len() == n0);
        let ghost js = jitter@;
        let ghost t0 = total_bytes(orig);
        let ghost mut kept = Seq::<QEntry>::empty();
        let ghost mut evs = Seq::<QEvent>::empty();
        let mut events: Vec<QueueEvent> = Vec::new();
        let mut idx: usize = 0;
        let mut i: usize = 0;
        proof {
            self.lemma_total();
            assert(orig.skip(0) =~= orig);
            assert(kept + orig.skip(0) =~= orig);
            assert(events_view(events@) =~= evs);
            assert(js.skip(0) =~= js);
            let r0 = tick_spec(orig, t0, elapsed_ms, js);
            assert(kept + r0.0 =~= r0.0);
            assert(evs + r0.1 =~= r0.1);
        }
        while idx < self.pending.len()
            invariant
                self.wf(),
                js == jitter@,
                orig.len() <= js.len(),
                i <= usize::MAX,
                orig.len() <= usize::MAX,
                forall|k: int| 0 <= k < js.len() ==> js[k] < RETRY_DELAY_MS,
                i <= orig.len(),
                idx == kept.len(),
                self.entries() == kept + orig.skip(i as int),
                events_view(events@) == evs,
                forall|k: int|
                    0 <= k < events@.len() ==> event_payload(#[trigger] events@[k]@).len() <= BLOCK_SIZE,
                tick_spec(orig, t0, elapsed_ms, js) == (
                    kept + tick_spec(orig.skip(i as int), total_bytes(self.entries()), elapsed_ms, js.skip(i as int)).0,
                    evs + tick_spec(orig.skip(i as int), total_bytes(self.entries()), elapsed_ms, js.skip(i as int)).1,
                ),
            decreases orig.len() - i,
        {
            proof {
                self.lemma_total();
                self.lemma_payload_bounds(idx as int);
            }
            let ghost before = self.entries();
            assert(i < orig.len());
            let ghost total = total_bytes(before);
            let ghost e = orig[i as int];
            let ghost rest = orig.skip(i as int);
            assert(before[idx as int] == e);
            assert(rest[0] == e);
            assert(rest.drop_first() =~= orig.skip(i + 1));
            assert(js.skip(i as int).drop_first() =~= js.skip(i + 1));
            assert(js.skip(i as int)[0] == js[i as int]);
            let ghost step = tick_entry(e, total, elapsed_ms, js[i as int]);
            let p = self.pending[idx];
            assert(p.retry_count <= RETRY_COUNT);
            if p.next_send <= elapsed_ms {
                let will_discard = p.retry_count >= RETRY_COUNT || self.data.len() > CONGEST_CONTROL;
                let will_retry = p.retry_count < RETRY_COUNT;
                if will_retry {
                    let rc = p.retry_count + 1;
                    let j = jitter[i];
                    assert(rc * j <= 4 * 499) by (nonlinear_arith)
                        requires
                            rc <= 4,
                            j < 500,
                    ;
                    let ns = RETRY_DELAY_MS + rc * j;
                    self.set_timer(idx, ns, rc);
                    proof {
                        self.lemma_total();
                        self.lemma_payload_bounds(idx as int);
                    }
                    let payload = self.packet_data(idx);
                    let ev = QueueEvent::Retry { frame: p.packet, payload, next_retry_ms: ns };
                    proof {
                        assert(events_view(events@.push(ev)) =~= events_view(events@).push(ev@));
                    }
                    events.push(ev);
                }
                if will_discard {
                    proof {
                        self.lemma_total();
                        self.lemma_payload_bounds(idx as int);
                    }
                    let payload = self.packet_data(idx);
                    let ev = QueueEvent::Expire { frame: p.packet, payload };
                    proof {
                        assert(events_view(events@.push(ev)) =~= events_view(events@).push(ev@));
                    }
                    events.push(ev);
                    self.discard(idx);
                    proof {
                        self.lemma_total();
                        assert(self.entries() =~= kept + orig.skip(i + 1));
                        evs = evs + step.1;
                        assert(events_view(events@) =~= evs);
                    }
                } else {
                    proof {
                        kept = kept + step.0;
                        evs = evs + step.1;
                        assert(self.entries() =~= kept + orig.skip(i + 1));
                        assert(events_view(events@) =~= evs);
                    }
                    idx = idx + 1;
                }
            } else {
                self.set_timer(idx, p.next_send - elapsed_ms, p.retry_count);
                proof {
                    kept = kept + step.0;
                    assert(self.entries() =~= kept + orig.skip(i + 1));
                    assert(evs + step.1 =~= evs);
                }
                idx = idx + 1;
            }
            proof {
                self.lemma_total();
            }
            i = i + 1;
        }
        proof {
            assert(orig.skip(i as int).len() == 0);
            assert(self.entries() =~= kept);
        }
        events
    }
}

/// Relies on rand 0.4's `Range::new(0, high).ind_sample(&mut thread_rng())`:
/// a value drawn from `[0, high)`; `Range::new` panics unless `0 < high`.
#[verifier::external_body]
fn draw_below(high: usize) -> (r: usize)
    requires
        0 < high,
    ensures
        r < high,
{
    rand::distributions::Range::new(0, high).ind_sample(&mut rand::thread_rng())
}

impl Queue {
    /// Runs the timers down by `elapsed_ms` as `tick_with` does, each frame's
    /// jitter drawn at random from `[0, RETRY_DELAY_MS)`.
    pub fn tick(&mut self, elapsed_ms: usize) -> (events: Vec<QueueEvent>)
        requires
            old(self).wf(),
        ensures
            final(self).wf(),
            exists|js: Seq<usize>|
                {
                    &&& js.len() == old(self).entries().len()
                    &&& forall|i: int| 0 <= i < js.len() ==> js[i] < RETRY_DELAY_MS
                    &&& (final(self).entries(), events_view(events@)) == tick_spec(
                        old(self).entries(),
                        total_bytes(old(self).entries()),
                        elapsed_ms,
                        js,
                    )
                },
            forall|k: int|
                0 <= k < events@.len() ==> event_payload(#[trigger] events@[k]@).len() <= BLOCK_SIZE,
    {
        let n = self.pending_packets();
        let mut jitter: Vec<usize> = Vec::new();
        let mut k: usize = 0;
        while k < n
            invariant
                k <= n,
                jitter@.len() == k,
                forall|i: int| 0 <= i < k ==> jitter@[i] < RETRY_DELAY_MS,
            decreases n - k,
        {
            jitter.push(draw_below(RETRY_DELAY_MS));
            k = k + 1;
        }
        let events = self.tick_with(elapsed_ms, jitter.as_slice());
        events
    }
}

proof fn lemma_total_remove(es: Seq<QEntry>, i: int)
    requires
        0 <= i < es.len(),
    ensures
        total_bytes(es.remove(i)) == total_bytes(es) - es[i].payload.len(),
    decreases es.len(),
{
    if i == es.len() - 1 {
        assert(es.remove(i) =~= es.drop_last());
    } else {
        lemma_total_remove(es.drop_last(), i);
        assert(es.remove(i).drop_last() =~= es.drop_last().remove(i));
        assert(es.remove(i).last() == es.last());
    }
}

proof fn lemma_find_prn_bounds(es: Seq<QEntry>, prn: u32)
    ensures
        0 <= find_prn(es, prn) <= es.len(),
    decreases es.len(),
{
    if es.len() > 0 && es[0].frame.prn != prn {
        lemma_find_prn_bounds(es.drop_first(), prn);
    }
}

/// After the acknowledgement of a queued frame whose payload has at least
/// `size` bytes, a payload of `size` bytes fits in the queue again (`enqueue`
/// refuses exactly those that would take it over `BLOCK_SIZE`).
pub proof fn lemma_room_after_ack(es: Seq<QEntry>, prn: u32, size: nat)
    requires
        total_bytes(es) <= BLOCK_SIZE,
        find_prn(es, prn) < es.len(),
        es[find_prn(es, prn)].payload.len() >= size,
    ensures
        total_bytes(es.remove(find_prn(es, prn))) + size <= BLOCK_SIZE,
{
    lemma_find_prn_bounds(es, prn);
    lemma_total_remove(es, find_prn(es, prn));
}

/// The frames kept and the events of a run of ticks, each given its elapsed
/// time and its jitter.
pub open spec fn run_ticks(es: Seq<QEntry>, ticks: Seq<(usize, Seq<usize>)>) -> (
    Seq<QEntry>,
    Seq<QEvent>,
)
    decreases ticks.len(),
{
    if ticks.len() == 0 {
        (es, Seq::<QEvent>::empty())
    } else {
        let (e1, ev1) = tick_spec(es, total_bytes(es), ticks[0].0, ticks[0].1);
        let (e2, ev2) = run_ticks(e1, ticks.drop_first());
        (e2, ev1 + ev2)
    }
}

/// Number of retries among `evs`.
pub open spec fn count_retries(evs: Seq<QEvent>) -> nat
    decreases evs.len(),
{
    if evs.len() == 0 {
        0
    } else {
        (if evs[0] is Retry {
            1nat
        } else {
            0nat
        }) + count_retries(evs.drop_first())
    }
}

/// Number of drops among `evs`.
pub open spec fn count_expires(evs: Seq<QEvent>) -> nat
    decreases evs.len(),
{
    if evs.len() == 0 {
        0
    } else {
        (if evs[0] is Expire {
            1nat
        } else {
            0nat
        }) + count_expires(evs.drop_first())
    }
}

proof fn lemma_run_empty(ticks: Seq<(usize, Seq<usize>)>)
    ensures
        run_ticks(Seq::<QEntry>::empty(), ticks) == (Seq::<QEntry>::empty(), Seq::<QEvent>::empty()),
    decreases ticks.len(),
{
    if ticks.len() > 0 {
        lemma_run_empty(ticks.drop_first());
        assert(Seq::<QEvent>::empty() + Seq::<QEvent>::empty() =~= Seq::<QEvent>::empty());
    }
}

proof fn lemma_retry_counting_from(e: QEntry, ticks: Seq<(usize, Seq<usize>)>)
    requires
        e.retry_count <= RETRY_COUNT,
        e.payload.len() <= CONGEST_CONTROL,
        run_ticks(seq![e], ticks).0.len() == 0,
    ensures
        count_retries(run_ticks(seq![e], ticks).1) == RETRY_COUNT - e.retry_count,
        count_expires(run_ticks(seq![e], ticks).1) == 1,
    decreases ticks.len(),
{
    let es = seq![e];
    assert(es.drop_first() =~= Seq::<QEntry>::empty());
    assert(es.drop_last() =~= Seq::<QEntry>::empty());
    assert(es.last() == e && es[0] == e);
    assert(total_bytes(Seq::<QEntry>::empty()) == 0);
    assert(total_bytes(es) == e.payload.len());
    if ticks.len() > 0 {
        let (el, js) = ticks[0];
        let step = tick_entry(e, total_bytes(es), el, js[0]);
        let t = tick_spec(es, total_bytes(es), el, js);
        let none = tick_spec(Seq::<QEntry>::empty(), step.2, el, js.drop_first());
        assert(none == (Seq::<QEntry>::empty(), Seq::<QEvent>::empty()));
        assert(t.0 =~= step.0);
        assert(t.1 =~= step.1);
        let rest = ticks.drop_first();
        let r = run_ticks(t.0, rest);
        if step.0.len() == 0 {
            lemma_run_empty(rest);
            assert(step.1 =~= seq![QEvent::Expire(e.frame, e.payload)]);
            assert(t.1 + r.1 =~= seq![QEvent::Expire(e.frame, e.payload)]);
            assert(seq![QEvent::Expire(e.frame, e.payload)].drop_first() =~= Seq::<QEvent>::empty());
            let x = seq![QEvent::Expire(e.frame, e.payload)];
            assert(x[0] == QEvent::Expire(e.frame, e.payload));
            assert(count_retries(x.drop_first()) == 0);
            assert(count_expires(x.drop_first()) == 0);
        } else {
            let e1 = step.0[0];
            assert(step.0 =~= seq![e1]);
            assert(t.0 == seq![e1]);
            assert(run_ticks(es, ticks) == (r.0, t.1 + r.1));
            lemma_retry_counting_from(e1, rest);
            if e.next_send <= el {
                let ev = QEvent::Retry(e.frame, e.payload, e1.next_send);
                assert(step.1 =~= seq![ev]);
                assert((seq![ev] + r.1).drop_first() =~= r.1);
            } else {
                assert(step.1 =~= Seq::<QEvent>::empty());
                assert(Seq::<QEvent>::empty() + r.1 =~= r.1);
            }
        }
    }
}

/// A frame queued alone, never acknowledged and not over `CONGEST_CONTROL`,
/// is retried exactly `RETRY_COUNT` times and dropped exactly once over any
/// run of ticks after which the queue is empty.
pub proof fn lemma_retry_counting(e: QEntry, ticks: Seq<(usize, Seq<usize>)>)
    requires
        e.retry_count == 0,
        e.payload.len() <= CONGEST_CONTROL,
        run_ticks(seq![e], ticks).0.len() == 0,
    ensures
        count_retries(run_ticks(seq![e], ticks).1) == RETRY_COUNT,
        count_expires(run_ticks(seq![e], ticks).1) == 1,
{
    lemma_retry_counting_from(e, ticks);
}

} // verus!
