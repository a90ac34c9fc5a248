//! Client-side DenIM state.
//!
//! The endpoint mirrors the server: an outgoing queue of serialized
//! deniable payloads drained by the chunker, a buffer of incoming data
//! chunks awaiting a final, and the bootstrap bookkeeping for covert
//! sessions: which peers are established, which key requests are in
//! flight, and which plaintexts wait for a session to encrypt under.

use vstd::prelude::*;

use crate::chunk::DenimChunk;
use crate::chunker::Chunker;
use crate::codec::{decode_list, encode_payload, payload_bytes};
use crate::outgoing::{entries_wf, DeniableSendingBuffer, PayloadEntry};
use crate::payload::{DeniablePayload, PayloadModel, PreKeyRequest, SignalMessage};
use crate::ratio::QRatio;
use crate::reassembly::{sorted_reasm_run, SortReassemblyState};
use crate::store::bytes_eq;

verus! {

/// The client's local outgoing payload queue: serialized deniable payloads
/// under strictly increasing local identifiers, drained byte-wise from the
/// head.
pub struct OutgoingPayloadQueue {
    next_id: u64,
    entries: Vec<crate::store::StoredEntry>,
}

impl OutgoingPayloadQueue {
    /// The queued entries, head first.
    pub closed spec fn view_entries(&self) -> Seq<PayloadEntry> {
        self.entries@.map_values(|e: crate::store::StoredEntry| e.model())
    }

    /// Entries are well formed and their identifiers stay below the
    /// allocator.
    pub closed spec fn wf(&self) -> bool {
        &&& entries_wf(self.view_entries())
        &&& forall|i: int|
            0 <= i < self.view_entries().len() ==> (#[trigger] self.view_entries()[i]).id
                < self.next_id
    }

    /// The next identifier the queue will assign.
    pub closed spec fn spec_next_id(&self) -> u64 {
        self.next_id
    }

    pub fn new() -> (q: OutgoingPayloadQueue)
        ensures
            q.wf(),
            q.view_entries() == Seq::<PayloadEntry>::empty(),
            q.spec_next_id() == 0,
    {
        let q = OutgoingPayloadQueue { next_id: 0, entries: Vec::new() };
        proof {
            assert(q.view_entries() =~= Seq::<PayloadEntry>::empty());
        }
        q
    }

    /// Append a serialized payload under a fresh identifier, rank zero.
    pub fn enqueue(&mut self, payload: Vec<u8>) -> (id: u64)
        requires
            old(self).wf(),
            old(self).spec_next_id() < u64::MAX,
            1 <= payload@.len() <= 0x7fff_ffff,
        ensures
            final(self).wf(),
            id == old(self).spec_next_id(),
            final(self).spec_next_id() == old(self).spec_next_id() + 1,
            final(self).view_entries() == old(self).view_entries().push(
                PayloadEntry { id: id, bytes: payload@, rank: 0 },
            ),
    {
        let id = self.next_id;
        self.next_id = self.next_id + 1;
        let ghost before = self.view_entries();
        self.entries.push(
            crate::store::StoredEntry { entry_id: id, payload, rank: 0 },
        );
        proof {
            assert(self.view_entries() =~= before.push(self.entries@.last().model()));
            assert(entries_wf(self.view_entries())) by {
                assert(forall|i: int|
                    0 <= i < before.len() ==> self.view_entries()[i] == before[i]);
                assert(self.view_entries().last() == self.entries@.last().model());
            }
        }
        id
    }

    /// The head entry's identifier, remaining bytes, and rank.
    pub fn peek_head(&self) -> (r: Option<(u64, Vec<u8>, i32)>)
        ensures
            match r {
                Some(t) => self.view_entries().len() > 0 && t.0 == self.view_entries().first().id
                    && t.1@ == self.view_entries().first().bytes && t.2 as int
                    == self.view_entries().first().rank,
                None => self.view_entries().len() == 0,
            },
    {
        if self.entries.len() == 0 {
            return None;
        }
        let e = &self.entries[0];
        let bytes = crate::chunker::copy_range(&e.payload, 0, e.payload.len());
        proof {
            assert(bytes@ =~= self.view_entries().first().bytes);
        }
        Some((e.entry_id, bytes, e.rank))
    }

    /// The raw serialized payloads still queued, in order.
    pub fn list_raw(&self) -> (r: Vec<Vec<u8>>)
        ensures
            r@.map_values(|v: Vec<u8>| v@) == self.view_entries().map_values(
                |e: PayloadEntry| e.bytes,
            ),
    {
        let mut out: Vec<Vec<u8>> = Vec::new();
        let mut i: usize = 0;
        proof {
            assert(out@.map_values(|v: Vec<u8>| v@) =~= self.view_entries().take(0).map_values(
                |e: PayloadEntry| e.bytes,
            ));
        }
        while i < self.entries.len()
            invariant
                0 <= i <= self.entries@.len(),
                self.entries@.len() == self.view_entries().len(),
                out@.map_values(|v: Vec<u8>| v@) == self.view_entries().take(i as int).map_values(
                    |e: PayloadEntry| e.bytes,
                ),
            decreases self.entries@.len() - i,
        {
            let e = &self.entries[i];
            let bytes = crate::chunker::copy_range(&e.payload, 0, e.payload.len());
            let ghost ov = out@;
            let ghost bv = bytes@;
            out.push(bytes);
            proof {
                assert(self.view_entries()[i as int] == self.entries@[i as int].model());
                assert(bv =~= self.view_entries()[i as int].bytes);
                assert(out@ =~= ov.push(out@.last()));
                assert(out@.last()@ == bv);
                assert(out@.map_values(|v: Vec<u8>| v@) =~= ov.map_values(|v: Vec<u8>| v@).push(
                    self.view_entries()[i as int].bytes,
                ));
                assert(self.view_entries().take(i + 1) =~= self.view_entries().take(
                    i as int,
                ).push(self.view_entries()[i as int]));
                assert(self.view_entries().take(i + 1).map_values(|e2: PayloadEntry| e2.bytes)
                    =~= self.view_entries().take(i as int).map_values(
                    |e2: PayloadEntry| e2.bytes,
                ).push(self.view_entries()[i as int].bytes));
            }
            i = i + 1;
        }
        proof {
            assert(self.view_entries().take(self.view_entries().len() as int)
                =~= self.view_entries());
        }
        out
    }
}

/// First value stored under a key, front to back.
pub open spec fn assoc_find(s: Seq<(Seq<u8>, Seq<u8>)>, k: Seq<u8>) -> Option<Seq<u8>>
    decreases s.len(),
{
    if s.len() == 0 {
        None
    } else if s.first().0 == k {
        Some(s.first().1)
    } else {
        assoc_find(s.drop_first(), k)
    }
}

/// The pairs with the first match for a key removed.
pub open spec fn assoc_remove(s: Seq<(Seq<u8>, Seq<u8>)>, k: Seq<u8>) -> Seq<(Seq<u8>, Seq<u8>)>
    decreases s.len(),
{
    if s.len() == 0 {
        s
    } else if s.first().0 == k {
        s.drop_first()
    } else {
        seq![s.first()] + assoc_remove(s.drop_first(), k)
    }
}

/// The values stored under a key, in order.
pub open spec fn assoc_all(s: Seq<(Seq<u8>, Seq<u8>)>, k: Seq<u8>) -> Seq<Seq<u8>>
    decreases s.len(),
{
    if s.len() == 0 {
        Seq::empty()
    } else {
        (if s.first().0 == k {
            seq![s.first().1]
        } else {
            Seq::<Seq<u8>>::empty()
        }) + assoc_all(s.drop_first(), k)
    }
}

/// The pairs without every entry under a key.
pub open spec fn assoc_without(s: Seq<(Seq<u8>, Seq<u8>)>, k: Seq<u8>) -> Seq<(Seq<u8>, Seq<u8>)>
    decreases s.len(),
{
    if s.len() == 0 {
        s
    } else {
        (if s.first().0 == k {
            Seq::<(Seq<u8>, Seq<u8>)>::empty()
        } else {
            seq![s.first()]
        }) + assoc_without(s.drop_first(), k)
    }
}

/// Whether a byte string is among the listed ones.
pub open spec fn seq_contains(s: Seq<Seq<u8>>, x: Seq<u8>) -> bool {
    exists|i: int| 0 <= i < s.len() && s[i] == x
}

/// Mathematical state of the client: the outgoing queue and its allocator,
/// the incoming data chunks, the in-flight key requests, the plaintexts
/// awaiting a session, and the peers whose covert session is established.
#[verifier::ext_equal]
pub ghost struct ClientModel {
    pub outgoing: Seq<PayloadEntry>,
    pub outgoing_next: u64,
    pub incoming: Seq<DenimChunk>,
    pub pending: Seq<(Seq<u8>, Seq<u8>)>,
    pub awaiting: Seq<(Seq<u8>, Seq<u8>)>,
    pub established: Seq<Seq<u8>>,
}

/// One covert send toward a peer with no session yet: enqueue a key
/// request if none is in flight, remember the alias, and stash the
/// plaintext until the session exists.
pub open spec fn add_contact_spec(
    m: ClientModel,
    sid: Seq<u8>,
    text: Seq<u8>,
    alias: Seq<u8>,
) -> ClientModel {
    let requested = if assoc_find(m.pending, sid) is None {
        ClientModel {
            outgoing: m.outgoing.push(
                PayloadEntry {
                    id: m.outgoing_next,
                    bytes: payload_bytes(PayloadModel::KeyRequest(sid)),
                    rank: 0,
                },
            ),
            outgoing_next: (m.outgoing_next + 1) as u64,
            pending: m.pending.push((sid, alias)),
            ..m
        }
    } else {
        m
    };
    ClientModel { awaiting: requested.awaiting.push((alias, text)), ..requested }
}

/// A key response for a peer: the session is established, the in-flight
/// request is done, and the stashed plaintexts come out, in order, to be
/// encrypted and sent.
pub open spec fn key_response_spec(m: ClientModel, sid: Seq<u8>) -> (ClientModel, Seq<Seq<u8>>) {
    match assoc_find(m.pending, sid) {
        None => (m, Seq::empty()),
        Some(alias) => (
            ClientModel {
                pending: assoc_remove(m.pending, sid),
                awaiting: assoc_without(m.awaiting, alias),
                established: m.established.push(sid),
                ..m
            },
            assoc_all(m.awaiting, alias),
        ),
    }
}

/// One covert send toward an established peer: the ciphertext message is
/// serialized and enqueued.
pub open spec fn send_spec(m: ClientModel, ct: crate::payload::SignalMessageModel) -> ClientModel {
    ClientModel {
        outgoing: m.outgoing.push(
            PayloadEntry {
                id: m.outgoing_next,
                bytes: payload_bytes(PayloadModel::SignalMessage(ct)),
                rank: 0,
            },
        ),
        outgoing_next: (m.outgoing_next + 1) as u64,
        ..m
    }
}

/// From no session, two covert sends enqueue exactly one key request and
/// stash both plaintexts; the key response establishes the session and
/// hands the two plaintexts back in order; sending each then enqueues two
/// ciphertext payloads in order. (law)
pub proof fn lemma_deniable_bootstrap(
    m0: ClientModel,
    sid: Seq<u8>,
    t1: Seq<u8>,
    t2: Seq<u8>,
    alias: Seq<u8>,
    ct1: crate::payload::SignalMessageModel,
    ct2: crate::payload::SignalMessageModel,
)
    requires
        assoc_find(m0.pending, sid) is None,
        !seq_contains(m0.established, sid),
        assoc_all(m0.awaiting, alias) == Seq::<Seq<u8>>::empty(),
        m0.outgoing_next + 3 <= u64::MAX,
    ensures
        ({
            let m1 = add_contact_spec(m0, sid, t1, alias);
            let m2 = add_contact_spec(m1, sid, t2, alias);
            let (m3, stash) = key_response_spec(m2, sid);
            let m4 = send_spec(send_spec(m3, ct1), ct2);
            &&& m2.outgoing == m0.outgoing.push(
                PayloadEntry {
                    id: m0.outgoing_next,
                    bytes: payload_bytes(PayloadModel::KeyRequest(sid)),
                    rank: 0,
                },
            )
            &&& assoc_all(m2.awaiting, alias) == seq![t1, t2]
            &&& stash == seq![t1, t2]
            &&& seq_contains(m3.established, sid)
            &&& assoc_find(m3.pending, sid) is None || m0.pending.len() > 0
            &&& m4.outgoing == m3.outgoing.push(
                PayloadEntry {
                    id: m3.outgoing_next,
                    bytes: payload_bytes(PayloadModel::SignalMessage(ct1)),
                    rank: 0,
                },
            ).push(
                PayloadEntry {
                    id: (m3.outgoing_next + 1) as u64,
                    bytes: payload_bytes(PayloadModel::SignalMessage(ct2)),
                    rank: 0,
                },
            )
        }),
{
    let m1 = add_contact_spec(m0, sid, t1, alias);
    let m2 = add_contact_spec(m1, sid, t2, alias);
    lemma_assoc_find_push(m0.pending, sid, alias);
    lemma_assoc_all_push(m0.awaiting, alias, t1);
    lemma_assoc_all_push(m1.awaiting, alias, t2);
    assert(assoc_all(m1.awaiting, alias) =~= seq![t1]);
    assert(assoc_all(m2.awaiting, alias) =~= seq![t1, t2]);
    assert(seq_contains(key_response_spec(m2, sid).0.established, sid)) by {
        let est = key_response_spec(m2, sid).0.established;
        assert(est.last() == sid);
    }
}

/// Pushing a pair makes its key found when it was absent.
proof fn lemma_assoc_find_push(s: Seq<(Seq<u8>, Seq<u8>)>, k: Seq<u8>, v: Seq<u8>)
    requires
        assoc_find(s, k) is None,
    ensures
        assoc_find(s.push((k, v)), k) == Some(v),
    decreases s.len(),
{
    assert(s.push((k, v)).len() == s.len() + 1);
    if s.len() == 0 {
        assert(s.push((k, v)).first() == (k, v));
    } else {
        assert(s.push((k, v)).first() == s.first());
        assert(s.push((k, v)).drop_first() =~= s.drop_first().push((k, v)));
        lemma_assoc_find_push(s.drop_first(), k, v);
    }
}

/// Pushing a pair appends its value to what the key stores.
proof fn lemma_assoc_all_push(s: Seq<(Seq<u8>, Seq<u8>)>, k: Seq<u8>, v: Seq<u8>)
    ensures
        assoc_all(s.push((k, v)), k) =~= assoc_all(s, k).push(v),
        forall|k2: Seq<u8>| k2 != k ==> assoc_all(s.push((k, v)), k2) =~= assoc_all(s, k2),
    decreases s.len(),
{
    assert(s.push((k, v)).len() == s.len() + 1);
    if s.len() == 0 {
        assert(s.push((k, v)).first() == (k, v));
        assert(s.push((k, v)).drop_first() =~= Seq::<(Seq<u8>, Seq<u8>)>::empty());
        assert forall|k2: Seq<u8>| k2 != k implies assoc_all(s.push((k, v)), k2) =~= assoc_all(
            s,
            k2,
        ) by {
            assert(assoc_all(Seq::<(Seq<u8>, Seq<u8>)>::empty(), k2) =~= Seq::<Seq<u8>>::empty());
            assert(assoc_all(s, k2) =~= Seq::<Seq<u8>>::empty());
        }
        assert(assoc_all(Seq::<(Seq<u8>, Seq<u8>)>::empty(), k) =~= Seq::<Seq<u8>>::empty());
        assert(assoc_all(s, k) =~= Seq::<Seq<u8>>::empty());
        assert(assoc_all(s.push((k, v)), k) =~= assoc_all(s, k).push(v));
    } else {
        assert(s.push((k, v)).first() == s.first());
        assert(s.push((k, v)).drop_first() =~= s.drop_first().push((k, v)));
        lemma_assoc_all_push(s.drop_first(), k, v);
        assert(assoc_all(s.push((k, v)), k) =~= assoc_all(s, k).push(v)) by {
            let prefix: Seq<Seq<u8>> = if s.first().0 == k {
                seq![s.first().1]
            } else {
                Seq::empty()
            };
            assert(assoc_all(s.push((k, v)), k) == prefix + assoc_all(
                s.drop_first().push((k, v)),
                k,
            ));
            assert(assoc_all(s, k) == prefix + assoc_all(s.drop_first(), k));
            assert(prefix + assoc_all(s.drop_first(), k).push(v) =~= (prefix + assoc_all(
                s.drop_first(),
                k,
            )).push(v));
        }
        assert forall|k2: Seq<u8>| k2 != k implies assoc_all(s.push((k, v)), k2) =~= assoc_all(
            s,
            k2,
        ) by {
            assert(assoc_all(s.drop_first().push((k, v)), k2) =~= assoc_all(s.drop_first(), k2));
            let prefix: Seq<Seq<u8>> = if s.first().0 == k2 {
                seq![s.first().1]
            } else {
                Seq::empty()
            };
            assert(assoc_all(s.push((k, v)), k2) == prefix + assoc_all(
                s.drop_first().push((k, v)),
                k2,
            ));
            assert(assoc_all(s, k2) == prefix + assoc_all(s.drop_first(), k2));
        }
    }
}

/// The client's DenIM state: chunking engine, outgoing queue, incoming
/// chunk buffer, and the covert-session bootstrap tables.
pub struct ClientDenimState {
    chunker: Chunker,
    outgoing: OutgoingPayloadQueue,
    incoming_chunks: Vec<DenimChunk>,
    pending_key_requests: Vec<(Vec<u8>, Vec<u8>)>,
    awaiting_encryption: Vec<(Vec<u8>, Vec<u8>)>,
    established: Vec<Vec<u8>>,
}

impl ClientDenimState {
    /// The mathematical state.
    pub closed spec fn model(&self) -> ClientModel {
        ClientModel {
            outgoing: self.outgoing.view_entries(),
            outgoing_next: self.outgoing.spec_next_id(),
            incoming: self.incoming_chunks@,
            pending: self.pending_key_requests@.map_values(
                |p: (Vec<u8>, Vec<u8>)| (p.0@, p.1@),
            ),
            awaiting: self.awaiting_encryption@.map_values(
                |p: (Vec<u8>, Vec<u8>)| (p.0@, p.1@),
            ),
            established: self.established@.map_values(|v: Vec<u8>| v@),
        }
    }

    /// Well-formedness: the queue is sound, the ratio usable, and the
    /// incoming buffer holds only chunks awaiting a final.
    pub closed spec fn inv(&self) -> bool {
        &&& self.outgoing.wf()
        &&& self.chunker.q.wf()
        &&& forall|i: int|
            0 <= i < self.incoming_chunks@.len() ==> crate::reassembly::is_buffered(
                #[trigger] self.incoming_chunks@[i],
            )
    }

    /// The configured bandwidth ratio.
    pub closed spec fn q(&self) -> QRatio {
        self.chunker.q
    }

    pub fn new(q: QRatio) -> (r: ClientDenimState)
        requires
            q.wf(),
        ensures
            r.inv(),
            r.q() == q,
            r.model() == (ClientModel {
                outgoing: Seq::<PayloadEntry>::empty(),
                outgoing_next: 0,
                incoming: Seq::<DenimChunk>::empty(),
                pending: Seq::<(Seq<u8>, Seq<u8>)>::empty(),
                awaiting: Seq::<(Seq<u8>, Seq<u8>)>::empty(),
                established: Seq::<Seq<u8>>::empty(),
            }),
    {
        let r = ClientDenimState {
            chunker: Chunker::new(q),
            outgoing: OutgoingPayloadQueue::new(),
            incoming_chunks: Vec::new(),
            pending_key_requests: Vec::new(),
            awaiting_encryption: Vec::new(),
            established: Vec::new(),
        };
        proof {
            assert(r.model() =~= (ClientModel {
                outgoing: Seq::<PayloadEntry>::empty(),
                outgoing_next: 0,
                incoming: Seq::<DenimChunk>::empty(),
                pending: Seq::<(Seq<u8>, Seq<u8>)>::empty(),
                awaiting: Seq::<(Seq<u8>, Seq<u8>)>::empty(),
                established: Seq::<Seq<u8>>::empty(),
            }));
        }
        r
    }

    /// Update the bandwidth ratio from a server broadcast.
    pub fn set_q_value(&mut self, q: QRatio)
        requires
            old(self).inv(),
            q.wf(),
        ensures
            final(self).inv(),
            final(self).q() == q,
            final(self).model() == old(self).model(),
    {
        self.chunker.set_q_value(q);
    }

    /// The alias under which a key request for this peer is in flight.
    pub fn try_get_key_request_sent(&self, service_id: &Vec<u8>) -> (r: Option<Vec<u8>>)
        ensures
            match r {
                Some(a) => assoc_find(self.model().pending, service_id@) == Some(a@),
                None => assoc_find(self.model().pending, service_id@) is None,
            },
    {
        Self::assoc_lookup(&self.pending_key_requests, service_id, Ghost(self.model().pending))
    }

    /// First value under a key in an association list.
    fn assoc_lookup(
        s: &Vec<(Vec<u8>, Vec<u8>)>,
        k: &Vec<u8>,
        m: Ghost<Seq<(Seq<u8>, Seq<u8>)>>,
    ) -> (r: Option<Vec<u8>>)
        requires
            m@ == s@.map_values(|p: (Vec<u8>, Vec<u8>)| (p.0@, p.1@)),
        ensures
            match r {
                Some(a) => assoc_find(m@, k@) == Some(a@),
                None => assoc_find(m@, k@) is None,
            },
    {
        let mut i: usize = 0;
        proof {
            assert(m@.skip(0) =~= m@);
        }
        while i < s.len()
            invariant
                m@ == s@.map_values(|p: (Vec<u8>, Vec<u8>)| (p.0@, p.1@)),
                m@.len() == s@.len(),
                0 <= i <= s@.len(),
                assoc_find(m@, k@) == assoc_find(m@.skip(i as int), k@),
            decreases s@.len() - i,
        {
            proof {
                assert(m@.skip(i as int).first() == (s@[i as int].0@, s@[i as int].1@));
                assert(m@.skip(i as int).drop_first() =~= m@.skip(i + 1));
            }
            if bytes_eq(&s[i].0, k) {
                let v = crate::chunker::copy_range(&s[i].1, 0, s[i].1.len());
                proof {
                    assert(v@ =~= s@[i as int].1@);
                }
                return Some(v);
            }
            i = i + 1;
        }
        proof {
            assert(m@.skip(m@.len() as int) =~= Seq::<(Seq<u8>, Seq<u8>)>::empty());
        }
        None
    }

    /// Whether a covert session with this peer is established.
    pub fn has_deniable_session(&self, service_id: &Vec<u8>) -> (r: bool)
        ensures
            r == seq_contains(self.model().established, service_id@),
    {
        let mut i: usize = 0;
        while i < self.established.len()
            invariant
                0 <= i <= self.established@.len(),
                forall|j: int| 0 <= j < i ==> (#[trigger] self.established@[j])@ != service_id@,
            decreases self.established@.len() - i,
        {
            if bytes_eq(&self.established[i], service_id) {
                proof {
                    assert(self.model().established[i as int] == service_id@);
                }
                return true;
            }
            i = i + 1;
        }
        proof {
            assert forall|j: int| 0 <= j < self.model().established.len() implies (
            #[trigger] self.model().established[j]) != service_id@ by {
                assert(self.model().established[j] == self.established@[j]@);
            }
        }
        false
    }

    /// A covert send toward a peer with no session: enqueue one key request
    /// if none is in flight, remember the alias, and stash the plaintext.
    pub fn add_deniable_contact_and_queue_message(
        &mut self,
        service_id: &Vec<u8>,
        text: &Vec<u8>,
        alias: &Vec<u8>,
    )
        requires
            old(self).inv(),
            old(self).model().outgoing_next < u64::MAX,
            service_id@.len() <= 0x7fff_0000,
        ensures
            final(self).inv(),
            final(self).q() == old(self).q(),
            final(self).model() == add_contact_spec(
                old(self).model(),
                service_id@,
                text@,
                alias@,
            ),
    {
        let pending = self.try_get_key_request_sent(service_id);
        if pending.is_none() {
            let sid_copy = crate::chunker::copy_range(service_id, 0, service_id.len());
            proof {
                assert(sid_copy@ =~= service_id@);
            }
            let payload = DeniablePayload::KeyRequest(PreKeyRequest { service_id: sid_copy });
            let bytes = encode_payload(&payload);
            proof {
                crate::codec::lemma_payload_bytes_tag(payload.model());
                assert(payload.model() == PayloadModel::KeyRequest(service_id@));
            }
            let _ = self.outgoing.enqueue(bytes);
            let sid_copy2 = crate::chunker::copy_range(service_id, 0, service_id.len());
            let alias_copy = crate::chunker::copy_range(alias, 0, alias.len());
            let ghost pb = self.model().pending;
            self.pending_key_requests.push((sid_copy2, alias_copy));
            proof {
                assert(sid_copy2@ =~= service_id@);
                assert(alias_copy@ =~= alias@);
                assert(self.model().pending =~= pb.push((service_id@, alias@)));
            }
        }
        let alias_copy2 = crate::chunker::copy_range(alias, 0, alias.len());
        let text_copy = crate::chunker::copy_range(text, 0, text.len());
        let ghost ab = self.model().awaiting;
        self.awaiting_encryption.push((alias_copy2, text_copy));
        proof {
            assert(alias_copy2@ =~= alias@);
            assert(text_copy@ =~= text@);
            assert(self.model().awaiting =~= ab.push((alias@, text@)));
            assert(final(self).model() =~= add_contact_spec(
                old(self).model(),
                service_id@,
                text@,
                alias@,
            ));
        }
    }

    /// A covert send toward an established peer: serialize the ciphertext
    /// message and enqueue it.  Refused, and nothing changes, when no
    /// session exists.
    pub fn send_deniable_message(&mut self, service_id: &Vec<u8>, ciphertext: SignalMessage) -> (r:
        Result<u64, crate::errors::DenimError>)
        requires
            old(self).inv(),
            old(self).model().outgoing_next < u64::MAX,
            payload_bytes(PayloadModel::SignalMessage(ciphertext.model())).len() <= 0x7fff_ffff,
        ensures
            final(self).inv(),
            final(self).q() == old(self).q(),
            ({
                let had = seq_contains(old(self).model().established, service_id@);
                match r {
                    Ok(id) => had && id == old(self).model().outgoing_next && final(self).model()
                        == send_spec(old(self).model(), ciphertext.model()),
                    Err(e) => !had && e is NoSuchSession && final(self).model() == old(
                        self,
                    ).model(),
                }
            }),
    {
        if !self.has_deniable_session(service_id) {
            return Err(crate::errors::DenimError::NoSuchSession);
        }
        let ghost cm = ciphertext.model();
        let bytes = encode_payload(&DeniablePayload::SignalMessage(ciphertext));
        proof {
            crate::codec::lemma_payload_bytes_tag(PayloadModel::SignalMessage(cm));
        }
        let id = self.outgoing.enqueue(bytes);
        proof {
            assert(final(self).model() =~= send_spec(old(self).model(), cm));
        }
        Ok(id)
    }

    /// A key response arrived for this peer: establish the covert session,
    /// clear the in-flight request, and hand back the stashed plaintexts in
    /// order, to be encrypted and sent now.
    pub fn process_key_response(&mut self, service_id: &Vec<u8>) -> (r: Vec<Vec<u8>>)
        requires
            old(self).inv(),
        ensures
            final(self).inv(),
            final(self).q() == old(self).q(),
            final(self).model() == key_response_spec(old(self).model(), service_id@).0,
            r@.map_values(|v: Vec<u8>| v@) == key_response_spec(
                old(self).model(),
                service_id@,
            ).1,
    {
        let alias = match self.try_get_key_request_sent(service_id) {
            None => {
                let out: Vec<Vec<u8>> = Vec::new();
                proof {
                    assert(out@.map_values(|v: Vec<u8>| v@) =~= Seq::<Seq<u8>>::empty());
                }
                return out;
            },
            Some(a) => a,
        };
        let ghost m0 = self.model();
        let stash = Self::assoc_take_all(&mut self.awaiting_encryption, &alias);
        let ghost m1 = self.model();
        Self::assoc_drop_first(&mut self.pending_key_requests, service_id);
        let sid_copy = crate::chunker::copy_range(service_id, 0, service_id.len());
        let ghost eb = self.model().established;
        self.established.push(sid_copy);
        proof {
            assert(sid_copy@ =~= service_id@);
            assert(self.model().established =~= eb.push(service_id@));
            assert(final(self).model() =~= key_response_spec(old(self).model(), service_id@).0);
        }
        stash
    }

    /// Enqueue an already-serialized deniable payload.
    pub fn store_deniable_payload(&mut self, payload: Vec<u8>) -> (id: u64)
        requires
            old(self).inv(),
            old(self).model().outgoing_next < u64::MAX,
            1 <= payload@.len() <= 0x7fff_ffff,
        ensures
            final(self).inv(),
            final(self).q() == old(self).q(),
            id == old(self).model().outgoing_next,
            final(self).model() == (ClientModel {
                outgoing: old(self).model().outgoing.push(
                    PayloadEntry { id: id, bytes: payload@, rank: 0 },
                ),
                outgoing_next: (old(self).model().outgoing_next + 1) as u64,
                ..old(self).model()
            }),
    {
        let id = self.outgoing.enqueue(payload);
        proof {
            assert(final(self).model() =~= (ClientModel {
                outgoing: old(self).model().outgoing.push(
                    PayloadEntry { id: id, bytes: payload@, rank: 0 },
                ),
                outgoing_next: (old(self).model().outgoing_next + 1) as u64,
                ..old(self).model()
            }));
        }
        id
    }

    /// The serialized payloads still queued for sending, in order.
    pub fn outgoing_payloads(&self) -> (r: Vec<Vec<u8>>)
        ensures
            r@.map_values(|v: Vec<u8>| v@) == self.model().outgoing.map_values(
                |e: PayloadEntry| e.bytes,
            ),
    {
        self.outgoing.list_raw()
    }

    /// The plaintexts stashed for an alias, in order.
    pub fn get_messages_awaiting_encryption(&self, alias: &Vec<u8>) -> (r: Vec<Vec<u8>>)
        ensures
            r@.map_values(|v: Vec<u8>| v@) == assoc_all(self.model().awaiting, alias@),
    {
        let ghost m = self.model().awaiting;
        let mut out: Vec<Vec<u8>> = Vec::new();
        let mut i: usize = 0;
        proof {
            assert(m.skip(0) =~= m);
            assert(out@.map_values(|v: Vec<u8>| v@) + assoc_all(m.skip(0), alias@) =~= assoc_all(
                m,
                alias@,
            ));
        }
        while i < self.awaiting_encryption.len()
            invariant
                m == self.model().awaiting,
                m.len() == self.awaiting_encryption@.len(),
                0 <= i <= self.awaiting_encryption@.len(),
                assoc_all(m, alias@) == out@.map_values(|v: Vec<u8>| v@) + assoc_all(
                    m.skip(i as int),
                    alias@,
                ),
            decreases self.awaiting_encryption@.len() - i,
        {
            proof {
                assert(m.skip(i as int).first() == (
                    self.awaiting_encryption@[i as int].0@,
                    self.awaiting_encryption@[i as int].1@,
                ));
                assert(m.skip(i as int).drop_first() =~= m.skip(i + 1));
            }
            let ghost ob = out@;
            if bytes_eq(&self.awaiting_encryption[i].0, alias) {
                let v = crate::chunker::copy_range(
                    &self.awaiting_encryption[i].1,
                    0,
                    self.awaiting_encryption[i].1.len(),
                );
                let ghost vv = v@;
                out.push(v);
                proof {
                    assert(vv =~= self.awaiting_encryption@[i as int].1@);
                    assert(out@ =~= ob.push(out@.last()));
                    assert(out@.last()@ == vv);
                    assert(out@.map_values(|v2: Vec<u8>| v2@) =~= ob.map_values(
                        |v2: Vec<u8>| v2@,
                    ).push(self.awaiting_encryption@[i as int].1@));
                    assert(assoc_all(m.skip(i as int), alias@) == seq![
                        m.skip(i as int).first().1,
                    ] + assoc_all(m.skip(i + 1), alias@));
                    assert(ob.map_values(|v2: Vec<u8>| v2@) + (seq![
                        m.skip(i as int).first().1,
                    ] + assoc_all(m.skip(i + 1), alias@)) =~= out@.map_values(|v2: Vec<u8>| v2@)
                        + assoc_all(m.skip(i + 1), alias@));
                }
            } else {
                proof {
                    assert(assoc_all(m.skip(i as int), alias@) == Seq::<Seq<u8>>::empty()
                        + assoc_all(m.skip(i + 1), alias@));
                    assert(ob.map_values(|v2: Vec<u8>| v2@) + (Seq::<Seq<u8>>::empty()
                        + assoc_all(m.skip(i + 1), alias@)) =~= ob.map_values(|v2: Vec<u8>| v2@)
                        + assoc_all(m.skip(i + 1), alias@));
                }
            }
            i = i + 1;
        }
        proof {
            assert(m.skip(m.len() as int) =~= Seq::<(Seq<u8>, Seq<u8>)>::empty());
            assert(assoc_all(Seq::<(Seq<u8>, Seq<u8>)>::empty(), alias@) =~= Seq::<
                Seq<u8>,
            >::empty());
            assert(out@.map_values(|v: Vec<u8>| v@) + Seq::<Seq<u8>>::empty() =~= out@.map_values(
                |v: Vec<u8>| v@,
            ));
        }
        out
    }

    /// Fill the slack of one overt packet from the outgoing queue.
    ///
    /// The emitted chunks and the residual free space exhaust the budget
    /// `ceil(size * q)` exactly; everything `emission_ok` promises of a
    /// chunker run holds of them.
    pub fn create_outgoing_chunks(&mut self, regular_payload_size: usize) -> (r: (
        Vec<DenimChunk>,
        usize,
    ))
        requires
            old(self).inv(),
            regular_payload_size <= crate::ratio::MAX_OVERT_SIZE,
            old(self).q().spec_budget(regular_payload_size as int)
                >= crate::codec::EMPTY_VEC_SIZE,
        ensures
            final(self).inv(),
            final(self).q() == old(self).q(),
            crate::codec::chunks_encoded_len(r.0@) + r.1 == old(self).q().spec_budget(
                regular_payload_size as int,
            ),
            r.1 < crate::codec::EMPTY_DENIMCHUNK_SIZE,
            forall|i: int| 0 <= i < r.0@.len() - 1 ==> (#[trigger] r.0@[i]).spec_is_final(),
            r.0@.len() > 0 && !r.0@.last().spec_is_final() ==> r.1 == 0,
            forall|i: int|
                0 <= i < r.0@.len() && (#[trigger] r.0@[i]).spec_is_dummy()
                    && r.0@[i].chunk@.len() > 0 ==> final(self).model().outgoing.len() == 0,
            crate::chunker::emission_ok(
                old(self).model().outgoing,
                final(self).model().outgoing,
                r.0@,
            ),
            final(self).model().incoming == old(self).model().incoming,
            final(self).model().pending == old(self).model().pending,
            final(self).model().awaiting == old(self).model().awaiting,
            final(self).model().established == old(self).model().established,
    {
        let r = self.chunker.create_chunks(regular_payload_size, &mut self.outgoing);
        r
    }

    /// Take in newly arrived chunks: dummies are dropped, finals complete
    /// payloads together with the buffered data chunks sorted by rank, and
    /// unterminated data chunks stay buffered for the next arrival.
    pub fn handle_incoming_chunks(&mut self, new_chunks: Vec<DenimChunk>) -> (r: Vec<
        DeniablePayload,
    >)
        requires
            old(self).inv(),
        ensures
            final(self).inv(),
            final(self).q() == old(self).q(),
            ({
                let st = sorted_reasm_run(
                    SortReassemblyState {
                        done: Seq::empty(),
                        pending: old(self).model().incoming,
                    },
                    new_chunks@,
                );
                &&& r@.map_values(|p: DeniablePayload| p.model()) == decode_list(st.done)
                &&& final(self).model() == (ClientModel {
                    incoming: st.pending,
                    ..old(self).model()
                })
            }),
    {
        let ghost stored = self.incoming_chunks@;
        let ghost fresh = new_chunks@;
        let mut combined: Vec<DenimChunk> = Vec::new();
        combined.append(&mut self.incoming_chunks);
        let mut incoming = new_chunks;
        combined.append(&mut incoming);
        proof {
            assert(combined@ =~= stored + fresh);
            let empty_st = SortReassemblyState { done: Seq::empty(), pending: Seq::empty() };
            crate::reassembly::lemma_sorted_reasm_app(empty_st, stored, fresh);
            crate::reassembly::lemma_sorted_reasm_buffered(empty_st, stored);
            assert(sorted_reasm_run(empty_st, stored) == (SortReassemblyState {
                done: Seq::<Seq<u8>>::empty(),
                pending: Seq::<DenimChunk>::empty() + stored,
            }));
            assert(Seq::<DenimChunk>::empty() + stored =~= stored);
        }
        let (payloads, pending) = crate::denim_manager::create_deniable_payloads(combined);
        self.incoming_chunks = pending;
        proof {
            let st = sorted_reasm_run(
                SortReassemblyState { done: Seq::empty(), pending: stored },
                fresh,
            );
            crate::reassembly::lemma_sorted_pending_buffered(
                SortReassemblyState { done: Seq::empty(), pending: stored },
                fresh,
            );
            assert(final(self).model() =~= (ClientModel {
                incoming: st.pending,
                ..old(self).model()
            }));
        }
        payloads
    }

    /// Remove and return every value under a key, in order.
    fn assoc_take_all(s: &mut Vec<(Vec<u8>, Vec<u8>)>, k: &Vec<u8>) -> (r: Vec<Vec<u8>>)
        ensures
            final(s)@.map_values(|p: (Vec<u8>, Vec<u8>)| (p.0@, p.1@)) == assoc_without(
                old(s)@.map_values(|p: (Vec<u8>, Vec<u8>)| (p.0@, p.1@)),
                k@,
            ),
            r@.map_values(|v: Vec<u8>| v@) == assoc_all(
                old(s)@.map_values(|p: (Vec<u8>, Vec<u8>)| (p.0@, p.1@)),
                k@,
            ),
    {
        let ghost sv = s@.map_values(|p: (Vec<u8>, Vec<u8>)| (p.0@, p.1@));
        let mut kept: Vec<(Vec<u8>, Vec<u8>)> = Vec::new();
        let mut taken: Vec<Vec<u8>> = Vec::new();
        let mut i: usize = 0;
        proof {
            assert(kept@.map_values(|p: (Vec<u8>, Vec<u8>)| (p.0@, p.1@)) =~= assoc_without(
                sv.take(0),
                k@,
            ));
            assert(taken@.map_values(|v: Vec<u8>| v@) =~= assoc_all(sv.take(0), k@));
        }
        while i < s.len()
            invariant
                sv == s@.map_values(|p: (Vec<u8>, Vec<u8>)| (p.0@, p.1@)),
                sv.len() == s@.len(),
                0 <= i <= s@.len(),
                kept@.map_values(|p: (Vec<u8>, Vec<u8>)| (p.0@, p.1@)) == assoc_without(
                    sv.take(i as int),
                    k@,
                ),
                taken@.map_values(|v: Vec<u8>| v@) == assoc_all(sv.take(i as int), k@),
            decreases s@.len() - i,
        {
            proof {
                assert(sv.take(i + 1) =~= sv.take(i as int).push(sv[i as int]));
                assert(sv[i as int] == (s@[i as int].0@, s@[i as int].1@));
                lemma_assoc_without_push(sv.take(i as int), sv[i as int].0, sv[i as int].1, k@);
                lemma_assoc_all_snoc(sv.take(i as int), sv[i as int].0, sv[i as int].1, k@);
            }
            let pair_key = crate::chunker::copy_range(&s[i].0, 0, s[i].0.len());
            let pair_val = crate::chunker::copy_range(&s[i].1, 0, s[i].1.len());
            proof {
                assert(pair_key@ =~= s@[i as int].0@);
                assert(pair_val@ =~= s@[i as int].1@);
            }
            if bytes_eq(&pair_key, k) {
                let ghost tb = taken@;
                taken.push(pair_val);
                proof {
                    assert(taken@.map_values(|v: Vec<u8>| v@) =~= tb.map_values(
                        |v: Vec<u8>| v@,
                    ).push(s@[i as int].1@));
                }
            } else {
                let ghost kb = kept@;
                kept.push((pair_key, pair_val));
                proof {
                    assert(kept@.map_values(|p: (Vec<u8>, Vec<u8>)| (p.0@, p.1@))
                        =~= kb.map_values(|p: (Vec<u8>, Vec<u8>)| (p.0@, p.1@)).push(
                        sv[i as int],
                    ));
                }
            }
            i = i + 1;
        }
        proof {
            assert(sv.take(sv.len() as int) =~= sv);
        }
        *s = kept;
        taken
    }

    /// Remove the first pair under a key.
    fn assoc_drop_first(s: &mut Vec<(Vec<u8>, Vec<u8>)>, k: &Vec<u8>)
        ensures
            final(s)@.map_values(|p: (Vec<u8>, Vec<u8>)| (p.0@, p.1@)) == assoc_remove(
                old(s)@.map_values(|p: (Vec<u8>, Vec<u8>)| (p.0@, p.1@)),
                k@,
            ),
    {
        assoc_remove_first(s, k)
    }
}

/// Remove the first pair under a key in an association list.
pub(crate) fn assoc_remove_first(s: &mut Vec<(Vec<u8>, Vec<u8>)>, k: &Vec<u8>)
        ensures
            final(s)@.map_values(|p: (Vec<u8>, Vec<u8>)| (p.0@, p.1@)) == assoc_remove(
                old(s)@.map_values(|p: (Vec<u8>, Vec<u8>)| (p.0@, p.1@)),
                k@,
            ),
    {
        let ghost sv = s@.map_values(|p: (Vec<u8>, Vec<u8>)| (p.0@, p.1@));
        let mut i: usize = 0;
        proof {
            assert(sv.take(0) =~= Seq::<(Seq<u8>, Seq<u8>)>::empty());
            assert(sv.skip(0) =~= sv);
            assert(sv.take(0) + assoc_remove(sv.skip(0), k@) =~= assoc_remove(sv, k@));
        }
        while i < s.len()
            invariant
                sv == s@.map_values(|p: (Vec<u8>, Vec<u8>)| (p.0@, p.1@)),
                sv == old(s)@.map_values(|p: (Vec<u8>, Vec<u8>)| (p.0@, p.1@)),
                sv.len() == s@.len(),
                0 <= i <= s@.len(),
                forall|j: int| 0 <= j < i ==> (#[trigger] sv[j]).0 != k@,
                assoc_remove(sv, k@) == sv.take(i as int) + assoc_remove(sv.skip(i as int), k@),
            decreases s@.len() - i,
        {
            proof {
                assert(sv.skip(i as int).first() == (s@[i as int].0@, s@[i as int].1@));
                assert(sv.skip(i as int).drop_first() =~= sv.skip(i + 1));
            }
            if bytes_eq(&s[i].0, k) {
                let ghost sb = s@;
                let _ = s.remove(i);
                proof {
                    assert(s@ =~= sb.remove(i as int));
                    assert(s@.map_values(|p: (Vec<u8>, Vec<u8>)| (p.0@, p.1@)) =~= sv.remove(
                        i as int,
                    )) by {
                        assert(forall|j: int|
                            0 <= j < s@.len() ==> s@[j] == (if j < i {
                                sb[j]
                            } else {
                                sb[j + 1]
                            }));
                    }
                    assert(assoc_remove(sv.skip(i as int), k@) =~= sv.skip(i + 1));
                    assert(sv.remove(i as int) =~= sv.take(i as int) + sv.skip(i + 1));
                    assert(s@.map_values(|p: (Vec<u8>, Vec<u8>)| (p.0@, p.1@)) =~= assoc_remove(
                        sv,
                        k@,
                    ));
                }
                return ;
            }
            proof {
                assert(sv.take(i + 1) =~= sv.take(i as int).push(sv[i as int]));
                assert(seq![sv[i as int]] + assoc_remove(sv.skip(i + 1), k@) =~= assoc_remove(
                    sv.skip(i as int),
                    k@,
                ));
                assert(sv.take(i as int) + (seq![sv[i as int]] + assoc_remove(
                    sv.skip(i + 1),
                    k@,
                )) =~= sv.take(i + 1) + assoc_remove(sv.skip(i + 1), k@));
            }
            i = i + 1;
        }
        proof {
            assert(sv.skip(sv.len() as int) =~= Seq::<(Seq<u8>, Seq<u8>)>::empty());
            assert(assoc_remove(Seq::<(Seq<u8>, Seq<u8>)>::empty(), k@) =~= Seq::<(
                Seq<u8>,
                Seq<u8>,
            )>::empty());
            assert(sv.take(sv.len() as int) =~= sv);
            assert(sv + Seq::<(Seq<u8>, Seq<u8>)>::empty() =~= sv);
        }
}

/// `assoc_without` over a snoc.
proof fn lemma_assoc_without_push(
    s: Seq<(Seq<u8>, Seq<u8>)>,
    k0: Seq<u8>,
    v0: Seq<u8>,
    k: Seq<u8>,
)
    ensures
        k0 == k ==> assoc_without(s.push((k0, v0)), k) =~= assoc_without(s, k),
        k0 != k ==> assoc_without(s.push((k0, v0)), k) =~= assoc_without(s, k).push((k0, v0)),
    decreases s.len(),
{
    assert(s.push((k0, v0)).len() == s.len() + 1);
    if s.len() == 0 {
        assert(s.push((k0, v0)).first() == (k0, v0));
        assert(s.push((k0, v0)).drop_first() =~= Seq::<(Seq<u8>, Seq<u8>)>::empty());
        assert(assoc_without(Seq::<(Seq<u8>, Seq<u8>)>::empty(), k) =~= Seq::<(
            Seq<u8>,
            Seq<u8>,
        )>::empty());
    } else {
        assert(s.push((k0, v0)).first() == s.first());
        assert(s.push((k0, v0)).drop_first() =~= s.drop_first().push((k0, v0)));
        lemma_assoc_without_push(s.drop_first(), k0, v0, k);
        let prefix: Seq<(Seq<u8>, Seq<u8>)> = if s.first().0 == k {
            Seq::empty()
        } else {
            seq![s.first()]
        };
        assert(assoc_without(s.push((k0, v0)), k) == prefix + assoc_without(
            s.drop_first().push((k0, v0)),
            k,
        ));
        assert(assoc_without(s, k) == prefix + assoc_without(s.drop_first(), k));
        if k0 != k {
            assert(prefix + assoc_without(s.drop_first(), k).push((k0, v0)) =~= (prefix
                + assoc_without(s.drop_first(), k)).push((k0, v0)));
        }
    }
}

/// `assoc_all` over a snoc.
proof fn lemma_assoc_all_snoc(s: Seq<(Seq<u8>, Seq<u8>)>, k0: Seq<u8>, v0: Seq<u8>, k: Seq<u8>)
    ensures
        k0 == k ==> assoc_all(s.push((k0, v0)), k) =~= assoc_all(s, k).push(v0),
        k0 != k ==> assoc_all(s.push((k0, v0)), k) =~= assoc_all(s, k),
    decreases s.len(),
{
    if k0 == k {
        lemma_assoc_all_push(s, k, v0);
    } else {
        lemma_assoc_all_push(s, k0, v0);
    }
}

impl DeniableSendingBuffer for OutgoingPayloadQueue {
    open spec fn entries(&self) -> Seq<PayloadEntry> {
        self.view_entries()
    }

    open spec fn blocked(&self) -> bool {
        false
    }

    open spec fn ok(&self) -> bool {
        self.wf()
    }

    proof fn ok_implies_wf(&self) {
    }

    fn dequeue_bytes(&mut self, n: usize) -> (r: (Vec<u8>, usize, i32)) {
        if n == 0 || self.entries.len() == 0 {
            return (Vec::new(), 0, crate::chunk::DUMMY_FLAG);
        }
        let head_len = self.entries[0].payload.len();
        proof {
            assert(self.view_entries().first() == self.entries@[0].model());
        }
        proof {
            let es = self.view_entries();
            assert(es[0].bytes.len() >= 1 && es[0].rank <= 0 && (-es[0].rank) + es[0].bytes.len()
                <= 0x7fff_ffff);
        }
        if n < head_len {
            let e = self.entries.remove(0);
            let taken = crate::chunker::copy_range(&e.payload, 0, n);
            let tail = crate::chunker::copy_range(&e.payload, n, head_len);
            let new_head = crate::store::StoredEntry {
                entry_id: e.entry_id,
                payload: tail,
                rank: e.rank - 1,
            };
            self.entries.insert(0, new_head);
            proof {
                let es = old(self).view_entries();
                assert(self.view_entries() =~= es.update(
                    0,
                    PayloadEntry {
                        id: es.first().id,
                        bytes: es.first().bytes.skip(n as int),
                        rank: es.first().rank - 1,
                    },
                ));
                assert(entries_wf(self.view_entries())) by {
                    assert(forall|i: int|
                        1 <= i < self.view_entries().len() ==> self.view_entries()[i] == es[i]);
                }
                assert(forall|i: int|
                    0 <= i < self.view_entries().len() ==> (#[trigger] self.view_entries()[i]).id
                        == es[i].id);
            }
            (taken, n, e.rank)
        } else {
            let e = self.entries.remove(0);
            proof {
                let es = old(self).view_entries();
                assert(self.view_entries() =~= es.drop_first());
                assert(entries_wf(self.view_entries())) by {
                    assert(forall|i: int|
                        0 <= i < self.view_entries().len() ==> self.view_entries()[i] == es[i
                            + 1]);
                }
            }
            let len = e.payload.len();
            (e.payload, len, crate::chunk::FINAL_FLAG)
        }
    }
}

} // verus!
