//! The server-side DenIM manager.
//!
//! Owns, per account and device, a sender-role chunk buffer (chunks arriving
//! from that user, awaiting reassembly) and a receiver-role payload buffer
//! (deniable payloads bound for that user, drained byte-wise into outbound
//! envelopes), and drives chunking, reassembly, and the routing decisions
//! for reassembled payloads.

use vstd::prelude::*;

use crate::chunk::{DenimChunk, FINAL_FLAG};
use crate::chunker::{emission_ok, Chunker};
use crate::codec::{
    chunk_bytes, chunks_bytes, decode_chunk, decode_list, decode_payload, decoded_of,
    encode_payload, is_payload_encoding, lemma_payload_bytes_inj, payload_bytes, payload_wf,
    EMPTY_VEC_SIZE,
};
use crate::envelope::{assemble_denim_message, DenimMessage};
use crate::outgoing::PayloadEntry;
use crate::payload::{DeniablePayload, EnvelopeData, PayloadModel};
use crate::ratio::{QRatio, MAX_OVERT_SIZE};
use crate::reassembly::{reassemble, sorted_reasm_run, SortReassemblyState};
use crate::store::{insert_spec, page_of, BufferQueue, QueueModel};

verus! {

/// Which of a device's two buffers of a kind is meant: the sender role
/// holds what this user sent, the receiver role what is bound for it.
#[derive(Clone, Copy, PartialEq, Eq, Structural, Debug)]
pub enum Buffer {
    Sender,
    Receiver,
}

/// An account and device pair, the owner of a buffer.
#[derive(Clone, Copy, PartialEq, Eq, Structural, Debug)]
pub struct DeviceAddress {
    pub account_id: u64,
    pub device_id: u32,
}

/// The key of one buffer: its owner and its role.
#[derive(Clone, Copy, PartialEq, Eq, Structural, Debug)]
pub struct QueueId {
    pub address: DeviceAddress,
    pub role: Buffer,
}

/// A queue that has not been touched yet.
pub open spec fn empty_queue() -> QueueModel {
    QueueModel {
        counter: 0,
        entries: Seq::empty(),
        fwd: Map::empty(),
        rev: Map::empty(),
        locked: false,
    }
}

/// The queue under a key, or a fresh one: buffers are created on first use.
pub open spec fn queue_or_empty(m: Map<QueueId, QueueModel>, k: QueueId) -> QueueModel {
    if m.dom().contains(k) {
        m[k]
    } else {
        empty_queue()
    }
}

/// The map a keyed queue list stands for.
pub open spec fn queues_map(s: Seq<(QueueId, BufferQueue)>) -> Map<QueueId, QueueModel>
    decreases s.len(),
{
    if s.len() == 0 {
        Map::empty()
    } else {
        queues_map(s.drop_last()).insert(s.last().0, s.last().1.model())
    }
}

/// No two queues share a key.
pub open spec fn queues_nodup(s: Seq<(QueueId, BufferQueue)>) -> bool {
    forall|i: int, j: int| 0 <= i < j < s.len() ==> (#[trigger] s[i]).0 != (#[trigger] s[j]).0
}

/// Every held queue satisfies its own invariant.
pub open spec fn queues_ok(s: Seq<(QueueId, BufferQueue)>) -> bool {
    forall|i: int| 0 <= i < s.len() ==> (#[trigger] s[i]).1.inv()
}

proof fn lemma_queues_map_index(s: Seq<(QueueId, BufferQueue)>, i: int)
    requires
        queues_nodup(s),
        0 <= i < s.len(),
    ensures
        queues_map(s).dom().contains(s[i].0),
        queues_map(s)[s[i].0] == s[i].1.model(),
    decreases s.len(),
{
    if i + 1 < s.len() {
        assert(s.drop_last()[i] == s[i]);
        lemma_queues_map_index(s.drop_last(), i);
        assert(s.last().0 != s[i].0);
    }
}

proof fn lemma_queues_map_absent(s: Seq<(QueueId, BufferQueue)>, k: QueueId)
    requires
        forall|i: int| 0 <= i < s.len() ==> (#[trigger] s[i]).0 != k,
    ensures
        !queues_map(s).dom().contains(k),
    decreases s.len(),
{
    if s.len() > 0 {
        assert(forall|i: int| 0 <= i < s.drop_last().len() ==> (#[trigger] s.drop_last()[i]).0
            != k);
        lemma_queues_map_absent(s.drop_last(), k);
    }
}

/// Taking one keyed queue out leaves the map without its key.
proof fn lemma_queues_map_remove(s: Seq<(QueueId, BufferQueue)>, j: int)
    requires
        queues_nodup(s),
        0 <= j < s.len(),
    ensures
        queues_map(s.remove(j)) =~= queues_map(s).remove(s[j].0),
        queues_nodup(s.remove(j)),
        queues_ok(s) ==> queues_ok(s.remove(j)),
    decreases s.len(),
{
    assert forall|a: int, b: int| 0 <= a < b < s.remove(j).len() implies (#[trigger] s.remove(
        j,
    )[a]).0 != (#[trigger] s.remove(j)[b]).0 by {
        let a0 = if a < j {
            a
        } else {
            a + 1
        };
        let b0 = if b < j {
            b
        } else {
            b + 1
        };
        assert(s.remove(j)[a] == s[a0] && s.remove(j)[b] == s[b0]);
    }
    if queues_ok(s) {
        assert forall|a: int| 0 <= a < s.remove(j).len() implies (#[trigger] s.remove(
            j,
        )[a]).1.inv() by {
            let a0 = if a < j {
                a
            } else {
                a + 1
            };
            assert(s.remove(j)[a] == s[a0]);
        }
    }
    if j == s.len() - 1 {
        assert(s.remove(j) =~= s.drop_last());
        assert(forall|i: int| 0 <= i < s.drop_last().len() ==> (#[trigger] s.drop_last()[i]).0
            != s[j].0);
        lemma_queues_map_absent(s.drop_last(), s[j].0);
        assert(queues_map(s).remove(s[j].0) =~= queues_map(s.drop_last()));
    } else {
        assert(s.remove(j).drop_last() =~= s.drop_last().remove(j));
        assert(s.remove(j).last() == s.last());
        assert(s.drop_last()[j] == s[j]);
        lemma_queues_map_remove(s.drop_last(), j);
        assert(queues_map(s.remove(j)) == queues_map(s.drop_last().remove(j)).insert(
            s.last().0,
            s.last().1.model(),
        ));
        assert(s[j].0 != s.last().0);
        assert(queues_map(s.drop_last()).remove(s[j].0).insert(s.last().0, s.last().1.model())
            =~= queues_map(s.drop_last()).insert(s.last().0, s.last().1.model()).remove(s[j].0));
    }
}

/// Inserting a batch of chunks, in order, each under its guid.
pub open spec fn insert_chunks_spec(
    m: QueueModel,
    cs: Seq<DenimChunk>,
    gs: Seq<Seq<u8>>,
) -> QueueModel
    decreases cs.len(),
{
    if cs.len() == 0 {
        m
    } else {
        insert_chunks_spec(
            insert_spec(m, gs.first(), chunk_bytes(cs.first())).0,
            cs.drop_first(),
            gs.drop_first(),
        )
    }
}

/// Inserting a batch of payloads, in order, each under its guid.
pub open spec fn insert_payloads_spec(
    m: QueueModel,
    ps: Seq<PayloadModel>,
    gs: Seq<Seq<u8>>,
) -> QueueModel
    decreases ps.len(),
{
    if ps.len() == 0 {
        m
    } else {
        insert_payloads_spec(
            insert_spec(m, gs.first(), payload_bytes(ps.first())).0,
            ps.drop_first(),
            gs.drop_first(),
        )
    }
}

/// What repeated byte-wise dequeues hand out, and the queue they leave: the
/// pairs of bytes and wire flag, cut until the budget is exhausted or the
/// queue yields nothing.
pub open spec fn drain_spec(m: QueueModel, n: int) -> (Seq<(Seq<u8>, i32)>, QueueModel)
    decreases n,
{
    if n <= 0 || m.locked || m.entries.len() == 0 {
        (Seq::empty(), m)
    } else {
        let h = m.entries.first();
        if n < h.bytes.len() {
            (
                seq![(h.bytes.take(n), h.rank as i32)],
                QueueModel {
                    entries: m.entries.update(
                        0,
                        PayloadEntry { id: h.id, bytes: h.bytes.skip(n), rank: h.rank - 1 },
                    ),
                    ..m
                },
            )
        } else if h.bytes.len() >= 1 {
            let m2 = QueueModel {
                entries: m.entries.drop_first(),
                fwd: m.fwd.remove(m.rev[h.id]),
                rev: m.rev.remove(h.id),
                ..m
            };
            let rest = drain_spec(m2, n - h.bytes.len());
            (seq![(h.bytes, FINAL_FLAG)] + rest.0, rest.1)
        } else {
            (Seq::empty(), m)
        }
    }
}

/// What a decoded page read promises: while locked the page is empty;
/// otherwise the decoded chunks re-encode to exactly the page's stored
/// values, and a failure names a stored value that is no chunk encoding.
pub open spec fn chunk_page_good(r: Option<Vec<DenimChunk>>, q: QueueModel) -> bool {
    let page = page_of(q.entries, 0);
    (match r {
        Some(cs) => q.locked ==> cs@.len() == 0,
        None => true,
    }) && (match r {
        Some(cs) => !q.locked ==> cs@.len() == page.len() && forall|i: int|
            0 <= i < cs@.len() ==> chunk_bytes(#[trigger] cs@[i]) == page[i].bytes,
        None => !q.locked && exists|i: int|
            0 <= i < page.len() && forall|c: DenimChunk|
                (#[trigger] page[i].bytes) != chunk_bytes(c),
    })
}

/// The DenIM manager: the chunking engine and, per account and device, the
/// sender-role chunk buffers and receiver-role payload buffers.
pub struct DenIMManager {
    chunker: Chunker,
    chunk_queues: Vec<(QueueId, BufferQueue)>,
    payload_queues: Vec<(QueueId, BufferQueue)>,
}

impl DenIMManager {
    /// The configured bandwidth ratio.
    pub closed spec fn q(&self) -> QRatio {
        self.chunker.q
    }

    /// The configured bandwidth ratio.
    pub fn q_ratio(&self) -> (r: QRatio)
        ensures
            r == self.q(),
    {
        self.chunker.q
    }

    /// The chunk buffers, by owner and role.
    pub closed spec fn chunk_queues_model(&self) -> Map<QueueId, QueueModel> {
        queues_map(self.chunk_queues@)
    }

    /// The payload buffers, by owner and role.
    pub closed spec fn payload_queues_model(&self) -> Map<QueueId, QueueModel> {
        queues_map(self.payload_queues@)
    }

    /// Well-formedness: distinct keys, every queue sound, a usable ratio.
    pub closed spec fn inv(&self) -> bool {
        &&& queues_nodup(self.chunk_queues@)
        &&& queues_ok(self.chunk_queues@)
        &&& queues_nodup(self.payload_queues@)
        &&& queues_ok(self.payload_queues@)
        &&& self.chunker.q.wf()
    }

    /// The configured ratio is usable.
    pub proof fn lemma_inv_q_wf(&self)
        requires
            self.inv(),
        ensures
            self.q().wf(),
    {
    }

    pub fn new(q: QRatio) -> (r: DenIMManager)
        requires
            q.wf(),
        ensures
            r.inv(),
            r.q() == q,
            r.chunk_queues_model() == Map::<QueueId, QueueModel>::empty(),
            r.payload_queues_model() == Map::<QueueId, QueueModel>::empty(),
    {
        let r = DenIMManager {
            chunker: Chunker::new(q),
            chunk_queues: Vec::new(),
            payload_queues: Vec::new(),
        };
        proof {
            assert(queues_map(r.chunk_queues@) =~= Map::<QueueId, QueueModel>::empty());
            assert(queues_map(r.payload_queues@) =~= Map::<QueueId, QueueModel>::empty());
        }
        r
    }

    /// Take the queue under a key out of the list, or a fresh one.
    fn take_queue(qs: &mut Vec<(QueueId, BufferQueue)>, k: QueueId) -> (q: BufferQueue)
        requires
            queues_nodup(old(qs)@),
            queues_ok(old(qs)@),
        ensures
            queues_nodup(final(qs)@),
            queues_ok(final(qs)@),
            q.inv(),
            q.model() == queue_or_empty(queues_map(old(qs)@), k),
            queues_map(final(qs)@) == queues_map(old(qs)@).remove(k),
            forall|i: int| 0 <= i < final(qs)@.len() ==> (#[trigger] final(qs)@[i]).0 != k,
    {
        let mut i: usize = 0;
        while i < qs.len()
            invariant
                qs@ == old(qs)@,
                queues_nodup(qs@),
                queues_ok(qs@),
                0 <= i <= qs@.len(),
                forall|j: int| 0 <= j < i ==> (#[trigger] qs@[j]).0 != k,
            decreases qs@.len() - i,
        {
            if qs[i].0 == k {
                proof {
                    lemma_queues_map_index(qs@, i as int);
                    lemma_queues_map_remove(qs@, i as int);
                }
                let (_, q) = qs.remove(i);
                proof {
                    assert forall|j: int| 0 <= j < qs@.len() implies (#[trigger] qs@[j]).0
                        != k by {
                        let j0 = if j < i {
                            j
                        } else {
                            j + 1
                        };
                        assert(qs@[j] == old(qs)@[j0]);
                        if j0 != i && old(qs)@[j0].0 == k {
                            assert(old(qs)@[i as int].0 == k);
                            assert(false);
                        }
                    }
                }
                return q;
            }
            i = i + 1;
        }
        proof {
            lemma_queues_map_absent(qs@, k);
            assert(queues_map(qs@).remove(k) =~= queues_map(qs@));
        }
        BufferQueue::new()
    }

    /// Put a queue back under a key that is not in the list.
    fn put_queue(qs: &mut Vec<(QueueId, BufferQueue)>, k: QueueId, q: BufferQueue)
        requires
            queues_nodup(old(qs)@),
            queues_ok(old(qs)@),
            q.inv(),
            forall|i: int| 0 <= i < old(qs)@.len() ==> (#[trigger] old(qs)@[i]).0 != k,
        ensures
            queues_nodup(final(qs)@),
            queues_ok(final(qs)@),
            queues_map(final(qs)@) == queues_map(old(qs)@).insert(k, q.model()),
    {
        qs.push((k, q));
        proof {
            assert(qs@.drop_last() =~= old(qs)@);
            assert(queues_map(qs@) =~= queues_map(old(qs)@).insert(k, q.model()));
            assert forall|a: int, b: int| 0 <= a < b < qs@.len() implies (#[trigger] qs@[a]).0 != (
            #[trigger] qs@[b]).0 by {
                if b + 1 < qs@.len() {
                    assert(qs@[a] == old(qs)@[a] && qs@[b] == old(qs)@[b]);
                } else {
                    assert(qs@[a] == old(qs)@[a]);
                }
            }
            assert forall|a: int| 0 <= a < qs@.len() implies (#[trigger] qs@[a]).1.inv() by {
                if a + 1 < qs@.len() {
                    assert(qs@[a] == old(qs)@[a]);
                }
            }
        }
    }

    /// Store one chunk in a chunk buffer, idempotently by guid.
    pub fn insert_chunk(
        &mut self,
        address: DeviceAddress,
        role: Buffer,
        chunk: &DenimChunk,
        guid: &Vec<u8>,
    ) -> (r: u64)
        requires
            old(self).inv(),
            chunk.chunk@.len() <= 0x7fff_0000,
            queue_or_empty(
                old(self).chunk_queues_model(),
                QueueId { address, role },
            ).counter < u64::MAX,
        ensures
            final(self).inv(),
            final(self).q() == old(self).q(),
            final(self).payload_queues_model() == old(self).payload_queues_model(),
            ({
                let k = QueueId { address, role };
                let q0 = queue_or_empty(old(self).chunk_queues_model(), k);
                let (q1, id) = insert_spec(q0, guid@, chunk_bytes(*chunk));
                final(self).chunk_queues_model() == old(self).chunk_queues_model().insert(k, q1)
                    && r == id
            }),
    {
        let k = QueueId { address, role };
        let mut q = Self::take_queue(&mut self.chunk_queues, k);
        let mut bytes: Vec<u8> = Vec::new();
        crate::codec::push_chunk(&mut bytes, chunk);
        proof {
            assert(bytes@ =~= chunk_bytes(*chunk));
        }
        let id = q.insert(guid, bytes);
        Self::put_queue(&mut self.chunk_queues, k, q);
        proof {
            assert(final(self).chunk_queues_model() =~= old(self).chunk_queues_model().insert(
                k,
                insert_spec(
                    queue_or_empty(old(self).chunk_queues_model(), k),
                    guid@,
                    chunk_bytes(*chunk),
                ).0,
            ));
        }
        id
    }

    /// Store one payload in a payload buffer, idempotently by guid.
    pub fn insert_payload(
        &mut self,
        address: DeviceAddress,
        role: Buffer,
        payload: &DeniablePayload,
        guid: &Vec<u8>,
    ) -> (r: u64)
        requires
            old(self).inv(),
            payload_bytes(payload.model()).len() <= 0x7fff_ffff,
            queue_or_empty(
                old(self).payload_queues_model(),
                QueueId { address, role },
            ).counter < u64::MAX,
        ensures
            final(self).inv(),
            final(self).q() == old(self).q(),
            final(self).chunk_queues_model() == old(self).chunk_queues_model(),
            ({
                let k = QueueId { address, role };
                let q0 = queue_or_empty(old(self).payload_queues_model(), k);
                let (q1, id) = insert_spec(q0, guid@, payload_bytes(payload.model()));
                final(self).payload_queues_model() == old(self).payload_queues_model().insert(
                    k,
                    q1,
                ) && r == id
            }),
    {
        let k = QueueId { address, role };
        let mut q = Self::take_queue(&mut self.payload_queues, k);
        let bytes = encode_payload(payload);
        proof {
            assert(payload_bytes(payload.model()).len() >= 12) by {
                crate::codec::lemma_payload_bytes_tag(payload.model());
            }
        }
        let id = q.insert(guid, bytes);
        Self::put_queue(&mut self.payload_queues, k, q);
        proof {
            assert(final(self).payload_queues_model()
                =~= old(self).payload_queues_model().insert(
                k,
                insert_spec(
                    queue_or_empty(old(self).payload_queues_model(), k),
                    guid@,
                    payload_bytes(payload.model()),
                ).0,
            ));
        }
        id
    }

    /// All chunks a buffer holds (up to one page), decoded.
    pub fn get_all_chunks(&self, address: DeviceAddress, role: Buffer) -> (r: Option<
        Vec<DenimChunk>,
    >)
        requires
            self.inv(),
        ensures
            chunk_page_good(r, queue_or_empty(self.chunk_queues_model(), QueueId { address, role })),
    {
        let k = QueueId { address, role };
        let mut i: usize = 0;
        while i < self.chunk_queues.len()
            invariant
                self.inv(),
                k == (QueueId { address, role }),
                0 <= i <= self.chunk_queues@.len(),
                forall|j: int| 0 <= j < i ==> (#[trigger] self.chunk_queues@[j]).0 != k,
            decreases self.chunk_queues@.len() - i,
        {
            if self.chunk_queues[i].0 == k {
                proof {
                    lemma_queues_map_index(self.chunk_queues@, i as int);
                    assert(self.chunk_queues@[i as int].1.inv());
                    assert(queue_or_empty(self.chunk_queues_model(), k)
                        == self.chunk_queues@[i as int].1.model());
                }
                let q = &self.chunk_queues[i].1;
                let (values, _guids) = q.get_values(0);
                let r = Self::decode_chunk_page(values, Ghost(q.model()));
                proof {
                    assert(chunk_page_good(r, q.model()));
                    assert(queue_or_empty(self.chunk_queues_model(), k) == q.model());
                    assert(chunk_page_good(
                        r,
                        queue_or_empty(self.chunk_queues_model(), QueueId { address, role }),
                    ));
                }
                return r;
            }
            i = i + 1;
        }
        proof {
            lemma_queues_map_absent(self.chunk_queues@, k);
            assert(page_of(empty_queue().entries, 0) =~= Seq::<PayloadEntry>::empty());
        }
        Some(Vec::new())
    }

    /// Decode one page of stored chunk encodings.
    fn decode_chunk_page(values: Vec<Vec<u8>>, q: Ghost<QueueModel>) -> (r: Option<
        Vec<DenimChunk>,
    >)
        requires
            !q@.locked ==> values@.map_values(|v: Vec<u8>| v@) == page_of(
                q@.entries,
                0,
            ).map_values(|e: PayloadEntry| e.bytes),
            q@.locked ==> values@.len() == 0,
        ensures
            chunk_page_good(r, q@),
    {
        let mut out: Vec<DenimChunk> = Vec::new();
        let mut i: usize = 0;
        while i < values.len()
            invariant
                0 <= i <= values@.len(),
                out@.len() == i,
                !q@.locked ==> values@.map_values(|v: Vec<u8>| v@) == page_of(
                    q@.entries,
                    0,
                ).map_values(|e: PayloadEntry| e.bytes),
                q@.locked ==> values@.len() == 0,
                forall|j: int|
                    0 <= j < i ==> chunk_bytes(#[trigger] out@[j]) == values@[j]@,
            decreases values@.len() - i,
        {
            proof {
                if !q@.locked {
                    assert(values@.map_values(|v: Vec<u8>| v@).len() == values@.len());
                    assert(page_of(q@.entries, 0).map_values(
                        |e: PayloadEntry| e.bytes,
                    ).len() == page_of(q@.entries, 0).len());
                    assert(values@.map_values(|v: Vec<u8>| v@)[i as int] == values@[i as int]@);
                    assert(page_of(q@.entries, 0).map_values(|e: PayloadEntry| e.bytes)[i as int]
                        == page_of(q@.entries, 0)[i as int].bytes);
                }
            }
            match decode_chunk(&values[i]) {
                Some(c) => {
                    out.push(c);
                },
                None => {
                    proof {
                        let page = page_of(q@.entries, 0);
                        assert(0 <= i < page.len() && forall|c: DenimChunk|
                            (#[trigger] page[i as int].bytes) != chunk_bytes(c));
                    }
                    return None;
                },
            }
            i = i + 1;
        }
        proof {
            if !q@.locked {
                let page = page_of(q@.entries, 0);
                assert(values@.map_values(|v: Vec<u8>| v@).len() == values@.len());
                assert(page.map_values(|e: PayloadEntry| e.bytes).len() == page.len());
                assert(values@.len() == page.len());
                assert forall|j: int| 0 <= j < out@.len() implies chunk_bytes(
                    #[trigger] out@[j],
                ) == page[j].bytes by {
                    assert(values@.map_values(|v: Vec<u8>| v@)[j] == values@[j]@);
                    assert(page.map_values(|e: PayloadEntry| e.bytes)[j] == page[j].bytes);
                }
            }
        }
        Some(out)
    }
}

/// What a decoded payload-page read promises, mirroring `chunk_page_good`.
pub open spec fn payload_page_good(r: Option<Vec<DeniablePayload>>, q: QueueModel) -> bool {
    let page = page_of(q.entries, 0);
    (match r {
        Some(ps) => q.locked ==> ps@.len() == 0,
        None => true,
    }) && (match r {
        Some(ps) => !q.locked ==> ps@.len() == page.len() && forall|i: int|
            0 <= i < ps@.len() ==> payload_bytes((#[trigger] ps@[i]).model()) == page[i].bytes,
        None => !q.locked && exists|i: int|
            0 <= i < page.len() && !is_payload_encoding(#[trigger] page[i].bytes),
    })
}

impl DenIMManager {
    /// Store a batch of chunks arriving from this sender, in order, each
    /// under its own guid.
    pub fn set_incoming_chunks(
        &mut self,
        sender: DeviceAddress,
        chunks: &Vec<DenimChunk>,
        guids: &Vec<Vec<u8>>,
    ) -> (count: usize)
        requires
            old(self).inv(),
            guids@.len() == chunks@.len(),
            forall|i: int| 0 <= i < chunks@.len() ==> (#[trigger] chunks@[i]).chunk@.len()
                <= 0x7fff_0000,
            queue_or_empty(
                old(self).chunk_queues_model(),
                QueueId { address: sender, role: Buffer::Sender },
            ).counter + chunks@.len() <= u64::MAX,
        ensures
            final(self).inv(),
            final(self).q() == old(self).q(),
            final(self).payload_queues_model() == old(self).payload_queues_model(),
            count == chunks@.len(),
            ({
                let k = QueueId { address: sender, role: Buffer::Sender };
                let q0 = queue_or_empty(old(self).chunk_queues_model(), k);
                final(self).chunk_queues_model() == old(self).chunk_queues_model().insert(
                    k,
                    insert_chunks_spec(q0, chunks@, guids@.map_values(|g: Vec<u8>| g@)),
                )
            }),
    {
        self.insert_chunk_batch(sender, Buffer::Sender, chunks, guids)
    }

    /// Store a batch of chunks held for this receiver, in order, each under
    /// its own guid.
    pub fn set_outgoing_chunks(
        &mut self,
        receiver: DeviceAddress,
        chunks: &Vec<DenimChunk>,
        guids: &Vec<Vec<u8>>,
    ) -> (count: usize)
        requires
            old(self).inv(),
            guids@.len() == chunks@.len(),
            forall|i: int| 0 <= i < chunks@.len() ==> (#[trigger] chunks@[i]).chunk@.len()
                <= 0x7fff_0000,
            queue_or_empty(
                old(self).chunk_queues_model(),
                QueueId { address: receiver, role: Buffer::Receiver },
            ).counter + chunks@.len() <= u64::MAX,
        ensures
            final(self).inv(),
            final(self).q() == old(self).q(),
            final(self).payload_queues_model() == old(self).payload_queues_model(),
            count == chunks@.len(),
            ({
                let k = QueueId { address: receiver, role: Buffer::Receiver };
                let q0 = queue_or_empty(old(self).chunk_queues_model(), k);
                final(self).chunk_queues_model() == old(self).chunk_queues_model().insert(
                    k,
                    insert_chunks_spec(q0, chunks@, guids@.map_values(|g: Vec<u8>| g@)),
                )
            }),
    {
        self.insert_chunk_batch(receiver, Buffer::Receiver, chunks, guids)
    }

    /// Store a batch of chunks, in order, each under its own guid.
    fn insert_chunk_batch(
        &mut self,
        address: DeviceAddress,
        role: Buffer,
        chunks: &Vec<DenimChunk>,
        guids: &Vec<Vec<u8>>,
    ) -> (count: usize)
        requires
            old(self).inv(),
            guids@.len() == chunks@.len(),
            forall|i: int| 0 <= i < chunks@.len() ==> (#[trigger] chunks@[i]).chunk@.len()
                <= 0x7fff_0000,
            queue_or_empty(
                old(self).chunk_queues_model(),
                QueueId { address, role },
            ).counter + chunks@.len() <= u64::MAX,
        ensures
            final(self).inv(),
            final(self).q() == old(self).q(),
            final(self).payload_queues_model() == old(self).payload_queues_model(),
            count == chunks@.len(),
            ({
                let k = QueueId { address, role };
                let q0 = queue_or_empty(old(self).chunk_queues_model(), k);
                final(self).chunk_queues_model() == old(self).chunk_queues_model().insert(
                    k,
                    insert_chunks_spec(q0, chunks@, guids@.map_values(|g: Vec<u8>| g@)),
                )
            }),
    {
        let k = QueueId { address, role };
        let ghost m0 = self.chunk_queues_model();
        let ghost gs = guids@.map_values(|g: Vec<u8>| g@);
        let mut q = Self::take_queue(&mut self.chunk_queues, k);
        let ghost q0 = q.model();
        let mut i: usize = 0;
        proof {
            assert(chunks@.skip(0) =~= chunks@);
            assert(gs.skip(0) =~= gs);
        }
        while i < chunks.len()
            invariant
                q.inv(),
                gs == guids@.map_values(|g: Vec<u8>| g@),
                gs.len() == chunks@.len(),
                0 <= i <= chunks@.len(),
                forall|j: int| 0 <= j < chunks@.len() ==> (#[trigger] chunks@[j]).chunk@.len()
                    <= 0x7fff_0000,
                q.model().counter + (chunks@.len() - i) <= u64::MAX,
                insert_chunks_spec(q0, chunks@, gs) == insert_chunks_spec(
                    q.model(),
                    chunks@.skip(i as int),
                    gs.skip(i as int),
                ),
            decreases chunks@.len() - i,
        {
            let ghost qcur = q.model();
            proof {
                assert(chunks@.skip(i as int).first() == chunks@[i as int]);
                assert(gs.skip(i as int).first() == guids@[i as int]@);
                assert(chunks@.skip(i as int).drop_first() =~= chunks@.skip(i + 1));
                assert(gs.skip(i as int).drop_first() =~= gs.skip(i + 1));
            }
            let mut bytes: Vec<u8> = Vec::new();
            crate::codec::push_chunk(&mut bytes, &chunks[i]);
            proof {
                assert(bytes@ =~= chunk_bytes(chunks@[i as int]));
            }
            let _ = q.insert(&guids[i], bytes);
            i = i + 1;
        }
        proof {
            assert(chunks@.skip(chunks@.len() as int) =~= Seq::<DenimChunk>::empty());
            assert(gs.skip(gs.len() as int) =~= Seq::<Seq<u8>>::empty());
        }
        Self::put_queue(&mut self.chunk_queues, k, q);
        proof {
            assert(final(self).chunk_queues_model() =~= m0.insert(
                k,
                insert_chunks_spec(queue_or_empty(m0, k), chunks@, gs),
            ));
        }
        chunks.len()
    }
}

impl DenIMManager {
    /// Store deniable payloads bound for this receiver, in order, each
    /// under its own guid.
    pub fn set_deniable_payloads(
        &mut self,
        receiver: DeviceAddress,
        payloads: &Vec<DeniablePayload>,
        guids: &Vec<Vec<u8>>,
    ) -> (count: usize)
        requires
            old(self).inv(),
            guids@.len() == payloads@.len(),
            forall|i: int|
                0 <= i < payloads@.len() ==> payload_bytes(
                    (#[trigger] payloads@[i]).model(),
                ).len() <= 0x7fff_ffff,
            queue_or_empty(
                old(self).payload_queues_model(),
                QueueId { address: receiver, role: Buffer::Receiver },
            ).counter + payloads@.len() <= u64::MAX,
        ensures
            final(self).inv(),
            final(self).q() == old(self).q(),
            final(self).chunk_queues_model() == old(self).chunk_queues_model(),
            count == payloads@.len(),
            ({
                let k = QueueId { address: receiver, role: Buffer::Receiver };
                let q0 = queue_or_empty(old(self).payload_queues_model(), k);
                final(self).payload_queues_model() == old(self).payload_queues_model().insert(
                    k,
                    insert_payloads_spec(
                        q0,
                        payloads@.map_values(|p: DeniablePayload| p.model()),
                        guids@.map_values(|g: Vec<u8>| g@),
                    ),
                )
            }),
    {
        let k = QueueId { address: receiver, role: Buffer::Receiver };
        let ghost m0 = self.payload_queues_model();
        let ghost gs = guids@.map_values(|g: Vec<u8>| g@);
        let ghost ps = payloads@.map_values(|p: DeniablePayload| p.model());
        let mut q = Self::take_queue(&mut self.payload_queues, k);
        let ghost q0 = q.model();
        let mut i: usize = 0;
        proof {
            assert(ps.skip(0) =~= ps);
            assert(gs.skip(0) =~= gs);
        }
        while i < payloads.len()
            invariant
                q.inv(),
                gs == guids@.map_values(|g: Vec<u8>| g@),
                ps == payloads@.map_values(|p: DeniablePayload| p.model()),
                gs.len() == payloads@.len(),
                ps.len() == payloads@.len(),
                0 <= i <= payloads@.len(),
                forall|j: int|
                    0 <= j < payloads@.len() ==> payload_bytes(
                        (#[trigger] payloads@[j]).model(),
                    ).len() <= 0x7fff_ffff,
                q.model().counter + (payloads@.len() - i) <= u64::MAX,
                insert_payloads_spec(q0, ps, gs) == insert_payloads_spec(
                    q.model(),
                    ps.skip(i as int),
                    gs.skip(i as int),
                ),
            decreases payloads@.len() - i,
        {
            proof {
                assert(ps.skip(i as int).first() == payloads@[i as int].model());
                assert(gs.skip(i as int).first() == guids@[i as int]@);
                assert(ps.skip(i as int).drop_first() =~= ps.skip(i + 1));
                assert(gs.skip(i as int).drop_first() =~= gs.skip(i + 1));
                crate::codec::lemma_payload_bytes_tag(payloads@[i as int].model());
            }
            let bytes = encode_payload(&payloads[i]);
            let _ = q.insert(&guids[i], bytes);
            i = i + 1;
        }
        proof {
            assert(ps.skip(ps.len() as int) =~= Seq::<PayloadModel>::empty());
            assert(gs.skip(gs.len() as int) =~= Seq::<Seq<u8>>::empty());
        }
        Self::put_queue(&mut self.payload_queues, k, q);
        proof {
            assert(final(self).payload_queues_model() =~= m0.insert(
                k,
                insert_payloads_spec(queue_or_empty(m0, k), ps, gs),
            ));
        }
        payloads.len()
    }

    /// All deniable payloads held for this receiver (up to one page),
    /// decoded.
    pub fn get_deniable_payloads(&self, receiver: DeviceAddress) -> (r: Option<
        Vec<DeniablePayload>,
    >)
        requires
            self.inv(),
        ensures
            payload_page_good(
                r,
                queue_or_empty(
                    self.payload_queues_model(),
                    QueueId { address: receiver, role: Buffer::Receiver },
                ),
            ),
    {
        let k = QueueId { address: receiver, role: Buffer::Receiver };
        let mut i: usize = 0;
        while i < self.payload_queues.len()
            invariant
                self.inv(),
                k == (QueueId { address: receiver, role: Buffer::Receiver }),
                0 <= i <= self.payload_queues@.len(),
                forall|j: int| 0 <= j < i ==> (#[trigger] self.payload_queues@[j]).0 != k,
            decreases self.payload_queues@.len() - i,
        {
            if self.payload_queues[i].0 == k {
                proof {
                    lemma_queues_map_index(self.payload_queues@, i as int);
                    assert(self.payload_queues@[i as int].1.inv());
                }
                let q = &self.payload_queues[i].1;
                let (values, _guids) = q.get_values(0);
                let r = Self::decode_payload_page(values, Ghost(q.model()));
                proof {
                    assert(queue_or_empty(self.payload_queues_model(), k) == q.model());
                }
                return r;
            }
            i = i + 1;
        }
        proof {
            lemma_queues_map_absent(self.payload_queues@, k);
            assert(page_of(empty_queue().entries, 0) =~= Seq::<PayloadEntry>::empty());
        }
        Some(Vec::new())
    }

    /// Decode one page of stored payload encodings.
    fn decode_payload_page(values: Vec<Vec<u8>>, q: Ghost<QueueModel>) -> (r: Option<
        Vec<DeniablePayload>,
    >)
        requires
            !q@.locked ==> values@.map_values(|v: Vec<u8>| v@) == page_of(
                q@.entries,
                0,
            ).map_values(|e: PayloadEntry| e.bytes),
            q@.locked ==> values@.len() == 0,
        ensures
            payload_page_good(r, q@),
    {
        let mut out: Vec<DeniablePayload> = Vec::new();
        let mut i: usize = 0;
        while i < values.len()
            invariant
                0 <= i <= values@.len(),
                out@.len() == i,
                !q@.locked ==> values@.map_values(|v: Vec<u8>| v@) == page_of(
                    q@.entries,
                    0,
                ).map_values(|e: PayloadEntry| e.bytes),
                q@.locked ==> values@.len() == 0,
                forall|j: int|
                    0 <= j < i ==> payload_bytes((#[trigger] out@[j]).model()) == values@[j]@,
            decreases values@.len() - i,
        {
            proof {
                if !q@.locked {
                    assert(values@.map_values(|v: Vec<u8>| v@).len() == values@.len());
                    assert(page_of(q@.entries, 0).map_values(
                        |e: PayloadEntry| e.bytes,
                    ).len() == page_of(q@.entries, 0).len());
                    assert(values@.map_values(|v: Vec<u8>| v@)[i as int] == values@[i as int]@);
                    assert(page_of(q@.entries, 0).map_values(|e: PayloadEntry| e.bytes)[i as int]
                        == page_of(q@.entries, 0)[i as int].bytes);
                }
            }
            match decode_payload(&values[i]) {
                Some(p) => {
                    out.push(p);
                },
                None => {
                    proof {
                        let page = page_of(q@.entries, 0);
                        assert(!is_payload_encoding(page[i as int].bytes)) by {
                            if is_payload_encoding(page[i as int].bytes) {
                                let w = choose|m: PayloadModel|
                                    payload_wf(m) && page[i as int].bytes == #[trigger] payload_bytes(
                                        m,
                                    );
                            }
                        }
                        assert(0 <= i < page.len() && !is_payload_encoding(page[i as int].bytes));
                    }
                    return None;
                },
            }
            i = i + 1;
        }
        proof {
            if !q@.locked {
                let page = page_of(q@.entries, 0);
                assert(values@.map_values(|v: Vec<u8>| v@).len() == values@.len());
                assert(page.map_values(|e: PayloadEntry| e.bytes).len() == page.len());
                assert(values@.len() == page.len());
                assert forall|j: int| 0 <= j < out@.len() implies payload_bytes(
                    (#[trigger] out@[j]).model(),
                ) == page[j].bytes by {
                    assert(values@.map_values(|v: Vec<u8>| v@)[j] == values@[j]@);
                    assert(page.map_values(|e: PayloadEntry| e.bytes)[j] == page[j].bytes);
                }
            }
        }
        Some(out)
    }

    /// The raw serialized payloads held for this receiver (up to one page).
    pub fn get_deniable_payloads_raw(&self, receiver: DeviceAddress) -> (r: Vec<Vec<u8>>)
        requires
            self.inv(),
        ensures
            ({
                let q = queue_or_empty(
                    self.payload_queues_model(),
                    QueueId { address: receiver, role: Buffer::Receiver },
                );
                if q.locked {
                    r@.len() == 0
                } else {
                    r@.map_values(|v: Vec<u8>| v@) == page_of(q.entries, 0).map_values(
                        |e: PayloadEntry| e.bytes,
                    )
                }
            }),
    {
        let k = QueueId { address: receiver, role: Buffer::Receiver };
        let mut i: usize = 0;
        while i < self.payload_queues.len()
            invariant
                self.inv(),
                k == (QueueId { address: receiver, role: Buffer::Receiver }),
                0 <= i <= self.payload_queues@.len(),
                forall|j: int| 0 <= j < i ==> (#[trigger] self.payload_queues@[j]).0 != k,
            decreases self.payload_queues@.len() - i,
        {
            if self.payload_queues[i].0 == k {
                proof {
                    lemma_queues_map_index(self.payload_queues@, i as int);
                    assert(self.payload_queues@[i as int].1.inv());
                }
                let q = &self.payload_queues[i].1;
                let (values, _guids) = q.get_values(0);
                proof {
                    assert(queue_or_empty(self.payload_queues_model(), k) == q.model());
                }
                return values;
            }
            i = i + 1;
        }
        proof {
            lemma_queues_map_absent(self.payload_queues@, k);
            assert(page_of(empty_queue().entries, 0) =~= Seq::<PayloadEntry>::empty());
            assert(Seq::<Vec<u8>>::empty().map_values(|v: Vec<u8>| v@) =~= page_of(
                empty_queue().entries,
                0,
            ).map_values(|e: PayloadEntry| e.bytes));
        }
        Vec::new()
    }

    /// Drain up to `bytes_amount` bytes of payload data for this receiver
    /// into chunks, cutting data chunks with their ranks and final chunks at
    /// payload boundaries.
    pub fn dequeue_payload_data(&mut self, receiver: DeviceAddress, bytes_amount: usize) -> (r:
        Vec<DenimChunk>)
        requires
            old(self).inv(),
        ensures
            final(self).inv(),
            final(self).q() == old(self).q(),
            final(self).chunk_queues_model() == old(self).chunk_queues_model(),
            ({
                let k = QueueId { address: receiver, role: Buffer::Receiver };
                let q0 = queue_or_empty(old(self).payload_queues_model(), k);
                let (pairs, q1) = drain_spec(q0, bytes_amount as int);
                &&& final(self).payload_queues_model() == old(self).payload_queues_model().insert(
                    k,
                    q1,
                )
                &&& r@.len() == pairs.len()
                &&& forall|i: int|
                    0 <= i < r@.len() ==> (#[trigger] r@[i]).chunk@ == pairs[i].0 && r@[i].flags
                        == pairs[i].1
            }),
    {
        let k = QueueId { address: receiver, role: Buffer::Receiver };
        let ghost m0 = self.payload_queues_model();
        let mut q = Self::take_queue(&mut self.payload_queues, k);
        let ghost q0 = q.model();
        let mut out: Vec<DenimChunk> = Vec::new();
        let mut take: usize = bytes_amount;
        proof {
            assert(drain_spec(q0, bytes_amount as int).0 =~= Seq::<(Seq<u8>, i32)>::empty()
                + drain_spec(q.model(), take as int).0);
        }
        loop
            invariant
                q.inv(),
                take <= bytes_amount,
                drain_spec(q0, bytes_amount as int).0 == out@.map_values(
                    |c: DenimChunk| (c.chunk@, c.flags),
                ) + drain_spec(q.model(), take as int).0,
                drain_spec(q0, bytes_amount as int).1 == drain_spec(q.model(), take as int).1,
            ensures
                drain_spec(q0, bytes_amount as int).0 == out@.map_values(
                    |c: DenimChunk| (c.chunk@, c.flags),
                ),
                drain_spec(q0, bytes_amount as int).1 == q.model(),
                q.inv(),
            decreases take,
        {
            if take == 0 {
                proof {
                    assert(out@.map_values(|c: DenimChunk| (c.chunk@, c.flags)) + Seq::<(
                        Seq<u8>,
                        i32,
                    )>::empty() =~= out@.map_values(|c: DenimChunk| (c.chunk@, c.flags)));
                }
                break ;
            }
            let ghost qcur = q.model();
            proof {
                q.lemma_inv_entries_wf();
                if qcur.entries.len() > 0 {
                    assert(qcur.entries[0].bytes.len() >= 1);
                }
            }
            let (data, taken, flags) = q.dequeue(take);
            if taken == 0 {
                proof {
                    assert(qcur.locked || qcur.entries.len() == 0);
                    assert(drain_spec(qcur, take as int).0 =~= Seq::<(Seq<u8>, i32)>::empty());
                    assert(out@.map_values(|c: DenimChunk| (c.chunk@, c.flags)) + Seq::<(
                        Seq<u8>,
                        i32,
                    )>::empty() =~= out@.map_values(|c: DenimChunk| (c.chunk@, c.flags)));
                }
                break ;
            }
            let ghost ov = out@;
            let c = DenimChunk { chunk: data, flags };
            out.push(c);
            proof {
                let pairs = drain_spec(qcur, take as int);
                assert(out@.map_values(|c2: DenimChunk| (c2.chunk@, c2.flags)) =~= ov.map_values(
                    |c2: DenimChunk| (c2.chunk@, c2.flags),
                ).push((c.chunk@, c.flags)));
                if (taken as int) < qcur.entries.first().bytes.len() {
                    assert(pairs.0 =~= seq![(c.chunk@, c.flags)]);
                    assert(drain_spec(q.model(), (take - taken) as int).0 =~= Seq::<(
                        Seq<u8>,
                        i32,
                    )>::empty() || true);
                    assert(take - taken == 0 || q.model().entries.first().bytes.len() >= 1);
                    assert(ov.map_values(|c2: DenimChunk| (c2.chunk@, c2.flags)).push(
                        (c.chunk@, c.flags),
                    ) + drain_spec(q.model(), (take - taken) as int).0 =~= ov.map_values(
                        |c2: DenimChunk| (c2.chunk@, c2.flags),
                    ) + pairs.0 + drain_spec(q.model(), (take - taken) as int).0);
                } else {
                    assert(pairs.0 =~= seq![(c.chunk@, c.flags)] + drain_spec(
                        q.model(),
                        take - taken,
                    ).0);
                    assert(ov.map_values(|c2: DenimChunk| (c2.chunk@, c2.flags)).push(
                        (c.chunk@, c.flags),
                    ) + drain_spec(q.model(), take - taken).0 =~= ov.map_values(
                        |c2: DenimChunk| (c2.chunk@, c2.flags),
                    ) + pairs.0);
                }
            }
            take = take - taken;
        }
        Self::put_queue(&mut self.payload_queues, k, q);
        proof {
            assert(final(self).payload_queues_model() =~= m0.insert(
                k,
                drain_spec(queue_or_empty(m0, k), bytes_amount as int).1,
            ));
        }
        out
    }

    /// Take one page of chunks out of a buffer: the decoded chunks come
    /// back and their entries leave the queue.
    pub fn take_all_chunks(&mut self, address: DeviceAddress, role: Buffer) -> (r: Option<
        Vec<DenimChunk>,
    >)
        requires
            old(self).inv(),
        ensures
            final(self).inv(),
            final(self).q() == old(self).q(),
            final(self).payload_queues_model() == old(self).payload_queues_model(),
            ({
                let k = QueueId { address, role };
                let q0 = queue_or_empty(old(self).chunk_queues_model(), k);
                let page = page_of(q0.entries, 0);
                chunk_page_good(r, q0) && (match r {
                    Some(cs) => final(self).chunk_queues_model() == old(
                        self,
                    ).chunk_queues_model().insert(
                        k,
                        if q0.locked {
                            q0
                        } else {
                            crate::store::remove_list(
                                q0,
                                page.map_values(|e: PayloadEntry| q0.rev[e.id]),
                            )
                        },
                    ),
                    None => final(self).chunk_queues_model() == old(self).chunk_queues_model().insert(
                        k,
                        q0,
                    ),
                })
            }),
    {
        let k = QueueId { address, role };
        let mut q = Self::take_queue(&mut self.chunk_queues, k);
        let ghost q0 = q.model();
        let (values, guids) = q.get_values(0);
        let r = Self::decode_chunk_page(values, Ghost(q.model()));
        match r {
            Some(cs) => {
                proof {
                    if !q0.locked {
                        assert(guids@.map_values(|g: Vec<u8>| g@) =~= page_of(
                            q0.entries,
                            0,
                        ).map_values(|e: PayloadEntry| q0.rev[e.id]));
                    } else {
                        assert(guids@.map_values(|g: Vec<u8>| g@) =~= Seq::<Seq<u8>>::empty());
                        assert(crate::store::remove_list(q0, Seq::<Seq<u8>>::empty()) == q0);
                    }
                }
                let _ = q.remove(&guids);
                Self::put_queue(&mut self.chunk_queues, k, q);
                proof {
                    if !q0.locked {
                        assert(final(self).chunk_queues_model() =~= old(
                            self,
                        ).chunk_queues_model().insert(
                            k,
                            crate::store::remove_list(
                                q0,
                                page_of(q0.entries, 0).map_values(
                                    |e: PayloadEntry| q0.rev[e.id],
                                ),
                            ),
                        ));
                    } else {
                        assert(final(self).chunk_queues_model() =~= old(
                            self,
                        ).chunk_queues_model().insert(k, q0));
                    }
                }
                Some(cs)
            },
            None => {
                Self::put_queue(&mut self.chunk_queues, k, q);
                proof {
                    assert(final(self).chunk_queues_model() =~= old(
                        self,
                    ).chunk_queues_model().insert(k, q0));
                }
                None
            },
        }
    }

    /// Build one outbound envelope for this receiver: the overt payload
    /// rides with chunks drained from the receiver's payload buffer and
    /// zero ballast, meeting the q-budget exactly.
    pub fn create_denim_message(
        &mut self,
        receiver: DeviceAddress,
        regular_payload: Vec<u8>,
        counter: Option<u32>,
        q_bits: Option<u32>,
    ) -> (dm: DenimMessage)
        requires
            old(self).inv(),
            regular_payload@.len() <= MAX_OVERT_SIZE,
            old(self).q().spec_budget(regular_payload@.len() as int) >= EMPTY_VEC_SIZE,
        ensures
            final(self).inv(),
            final(self).q() == old(self).q(),
            final(self).chunk_queues_model() == old(self).chunk_queues_model(),
            dm.regular_payload@ == regular_payload@,
            dm.counter == counter,
            dm.q_bits == q_bits,
            chunks_bytes(dm.chunks@).len() + dm.ballast@.len() == old(self).q().spec_budget(
                regular_payload@.len() as int,
            ),
            forall|j: int| 0 <= j < dm.ballast@.len() ==> dm.ballast@[j] == 0,
            forall|i: int|
                0 <= i < dm.chunks@.len() - 1 ==> (#[trigger] dm.chunks@[i]).spec_is_final(),
            dm.chunks@.len() > 0 && !dm.chunks@.last().spec_is_final() ==> dm.ballast@.len() == 0,
            ({
                let k = QueueId { address: receiver, role: Buffer::Receiver };
                let q0 = queue_or_empty(old(self).payload_queues_model(), k);
                exists|q1: QueueModel|
                    final(self).payload_queues_model() == old(
                        self,
                    ).payload_queues_model().insert(k, q1) && #[trigger] emission_ok(
                        q0.entries,
                        q1.entries,
                        dm.chunks@,
                    ) && (!q0.locked ==> (forall|i: int|
                        0 <= i < dm.chunks@.len() && (#[trigger] dm.chunks@[i]).spec_is_dummy()
                            && dm.chunks@[i].chunk@.len() > 0 ==> q1.entries.len() == 0))
            }),
    {
        let k = QueueId { address: receiver, role: Buffer::Receiver };
        let mut q = Self::take_queue(&mut self.payload_queues, k);
        let ghost q0 = q.model();
        let dm = assemble_denim_message(&self.chunker, regular_payload, &mut q, counter, q_bits);
        let ghost q1 = q.model();
        Self::put_queue(&mut self.payload_queues, k, q);
        proof {
            assert(final(self).payload_queues_model() == old(
                self,
            ).payload_queues_model().insert(k, q1) && emission_ok(
                queue_or_empty(old(self).payload_queues_model(), k).entries,
                q1.entries,
                dm.chunks@,
            ) && (!queue_or_empty(old(self).payload_queues_model(), k).locked ==> (forall|i: int|
                0 <= i < dm.chunks@.len() && (#[trigger] dm.chunks@[i]).spec_is_dummy()
                    && dm.chunks@[i].chunk@.len() > 0 ==> q1.entries.len() == 0)));
        }
        dm
    }
}

/// Inserting a batch never grows the identifier allocator by more than one
/// per chunk.
proof fn lemma_insert_chunks_counter(m: QueueModel, cs: Seq<DenimChunk>, gs: Seq<Seq<u8>>)
    ensures
        insert_chunks_spec(m, cs, gs).counter <= m.counter + cs.len(),
    decreases cs.len(),
{
    if cs.len() > 0 {
        let m2 = insert_spec(m, gs.first(), chunk_bytes(cs.first())).0;
        assert(m2.counter <= m.counter + 1);
        lemma_insert_chunks_counter(m2, cs.drop_first(), gs.drop_first());
    }
}

/// What the server decides about one reassembled deniable payload.
pub enum InboundAction {
    /// A covert key request: resolve the target's prekey bundle and send a
    /// key response back on the requester's own deniable channel.
    ReplyKeyResponse { target_service_id: Vec<u8> },
    /// A message or envelope bound for another account: enqueue it for
    /// every device of the destination.
    DeliverEnvelope { destination_service_id: Vec<u8>, envelope: EnvelopeData },
    /// A payload the server does not accept inbound.
    Discard,
}

/// The routing decision for one reassembled payload: a key request earns a
/// key response on the sender's own channel, a ciphertext message is
/// wrapped as an envelope for its destination, a carried envelope is
/// delivered as it stands, and anything else is dropped.
pub fn route_deniable_payload(
    payload: DeniablePayload,
    sender_service_id: &Vec<u8>,
    sender_device_id: u32,
    timestamp: u64,
) -> (r: InboundAction)
    ensures
        match payload.model() {
            PayloadModel::KeyRequest(sid) => r matches InboundAction::ReplyKeyResponse {
                target_service_id,
            } && target_service_id@ == sid,
            PayloadModel::SignalMessage(sm) => r matches InboundAction::DeliverEnvelope {
                destination_service_id,
                envelope,
            } && destination_service_id@ == sm.destination_service_id && envelope.model() == (
            crate::payload::EnvelopeModel {
                envelope_type: sm.message_type,
                source_service_id: sender_service_id@,
                source_device_id: sender_device_id,
                destination_service_id: sm.destination_service_id,
                content: sm.content,
                timestamp: timestamp,
            }),
            PayloadModel::Envelope(e) => r matches InboundAction::DeliverEnvelope {
                destination_service_id,
                envelope,
            } && destination_service_id@ == e.destination_service_id && envelope.model() == e,
            PayloadModel::KeyResponse(_) => r is Discard,
        },
{
    match payload {
        DeniablePayload::KeyRequest(kr) => InboundAction::ReplyKeyResponse {
            target_service_id: kr.service_id,
        },
        DeniablePayload::SignalMessage(sm) => {
            let destination_service_id = crate::chunker::copy_range(
                &sm.destination_service_id,
                0,
                sm.destination_service_id.len(),
            );
            proof {
                assert(destination_service_id@ =~= sm.destination_service_id@);
            }
            let envelope = EnvelopeData {
                envelope_type: sm.message_type,
                source_service_id: crate::chunker::copy_range(
                    sender_service_id,
                    0,
                    sender_service_id.len(),
                ),
                source_device_id: sender_device_id,
                destination_service_id: sm.destination_service_id,
                content: sm.content,
                timestamp,
            };
            proof {
                assert(envelope.source_service_id@ =~= sender_service_id@);
            }
            InboundAction::DeliverEnvelope { destination_service_id, envelope }
        },
        DeniablePayload::Envelope(e) => {
            let destination_service_id = crate::chunker::copy_range(
                &e.destination_service_id,
                0,
                e.destination_service_id.len(),
            );
            proof {
                assert(destination_service_id@ =~= e.destination_service_id@);
            }
            InboundAction::DeliverEnvelope { destination_service_id, envelope: e }
        },
        DeniablePayload::KeyResponse(_) => InboundAction::Discard,
    }
}

/// Reassemble a batch of chunks and decode the completed payloads.
///
/// Dummies are dropped, data chunks buffer until a final chunk, each
/// completed byte string that is a well-formed payload encoding is decoded,
/// corrupt ones are lost, and unterminated data chunks come back to be
/// stored pending.
pub fn create_deniable_payloads(chunks: Vec<DenimChunk>) -> (r: (
    Vec<DeniablePayload>,
    Vec<DenimChunk>,
))
    ensures
        ({
            let st = sorted_reasm_run(
                SortReassemblyState { done: Seq::empty(), pending: Seq::empty() },
                chunks@,
            );
            &&& r.0@.map_values(|p: DeniablePayload| p.model()) == decode_list(st.done)
            &&& r.1@ == st.pending
        }),
{
    let (done, pending) = reassemble(chunks);
    let ghost dv = done@.map_values(|p: Vec<u8>| p@);
    let mut out: Vec<DeniablePayload> = Vec::new();
    let mut i: usize = 0;
    proof {
        assert(out@.map_values(|p: DeniablePayload| p.model()) =~= Seq::<PayloadModel>::empty());
        assert(dv.skip(0) =~= dv);
        assert(decode_list(dv) =~= Seq::<PayloadModel>::empty() + decode_list(dv.skip(0)));
    }
    while i < done.len()
        invariant
            0 <= i <= done@.len(),
            dv == done@.map_values(|p: Vec<u8>| p@),
            dv.len() == done@.len(),
            decode_list(dv) == out@.map_values(|p: DeniablePayload| p.model()) + decode_list(
                dv.skip(i as int),
            ),
        decreases done@.len() - i,
    {
        let ghost rest = dv.skip(i as int);
        proof {
            assert(rest.len() > 0);
            assert(rest.first() == done@[i as int]@);
            assert(rest.drop_first() =~= dv.skip(i + 1));
        }
        let ghost before = out@.map_values(|p: DeniablePayload| p.model());
        match decode_payload(&done[i]) {
            Some(p) => {
                let ghost pm = p.model();
                out.push(p);
                proof {
                    assert(is_payload_encoding(rest.first()));
                    assert(decoded_of(rest.first()) == pm) by {
                        let w = decoded_of(rest.first());
                        lemma_payload_bytes_inj(w, pm);
                    }
                    assert(decode_list(rest) == seq![pm] + decode_list(rest.drop_first()));
                    assert(out@.map_values(|p2: DeniablePayload| p2.model()) =~= before.push(pm));
                    assert(before + (seq![pm] + decode_list(rest.drop_first())) =~= before.push(
                        pm,
                    ) + decode_list(rest.drop_first()));
                }
            },
            None => {
                proof {
                    assert(!is_payload_encoding(rest.first())) by {
                        if is_payload_encoding(rest.first()) {
                            let w = decoded_of(rest.first());
                        }
                    }
                    assert(decode_list(rest) == Seq::<PayloadModel>::empty() + decode_list(
                        rest.drop_first(),
                    ));
                    assert(before + (Seq::<PayloadModel>::empty() + decode_list(
                        rest.drop_first(),
                    )) =~= before + decode_list(rest.drop_first()));
                }
            },
        }
        i = i + 1;
    }
    proof {
        assert(dv.skip(dv.len() as int) =~= Seq::<Seq<u8>>::empty());
        assert(out@.map_values(|p: DeniablePayload| p.model()) + decode_list(
            Seq::<Seq<u8>>::empty(),
        ) =~= out@.map_values(|p: DeniablePayload| p.model()));
    }
    (out, pending)
}

} // verus!
