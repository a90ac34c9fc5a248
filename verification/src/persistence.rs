//! The global time-ordered queue index behind the background persister.
//!
//! Every buffer is registered here, once, when its first entry arrives,
//! under the wall-clock second of that insert; the persister walks the
//! queues whose registration is old enough, locks each, migrates it to
//! durable storage, and deregisters it.  Clock readings come from the
//! caller: the core holds no clock.

use vstd::prelude::*;

use crate::availability::{AvailabilityListener, ListenerRegistry};
use crate::codec::payload_bytes;
use crate::denim_manager::{queue_or_empty, Buffer, DenIMManager, DeviceAddress, QueueId};
use crate::payload::DeniablePayload;
use crate::store::{insert_spec, remove_list, removed_values, BufferQueue};

verus! {

/// Queues awaiting durable persistence, each under its registration time.
pub struct PersistenceIndex {
    entries: Vec<(QueueId, u64)>,
}

impl PersistenceIndex {
    /// The registered queues with their registration times, oldest first.
    pub closed spec fn model(&self) -> Seq<(QueueId, u64)> {
        self.entries@
    }

    /// Each queue appears once, and registration times never decrease.
    pub closed spec fn inv(&self) -> bool {
        &&& forall|i: int, j: int|
            0 <= i < j < self.entries@.len() ==> (#[trigger] self.entries@[i]).0 != (
            #[trigger] self.entries@[j]).0
        &&& forall|i: int, j: int|
            0 <= i < j < self.entries@.len() ==> (#[trigger] self.entries@[i]).1 <= (
            #[trigger] self.entries@[j]).1
    }

    pub fn new() -> (r: PersistenceIndex)
        ensures
            r.inv(),
            r.model() == Seq::<(QueueId, u64)>::empty(),
    {
        PersistenceIndex { entries: Vec::new() }
    }

    /// Register a queue at the given time; a queue already registered keeps
    /// its original registration.
    pub fn register(&mut self, queue: QueueId, now_secs: u64)
        requires
            old(self).inv(),
            forall|i: int|
                0 <= i < old(self).model().len() ==> (#[trigger] old(self).model()[i]).1
                    <= now_secs,
        ensures
            final(self).inv(),
            ({
                let m = old(self).model();
                if exists|i: int| 0 <= i < m.len() && (#[trigger] m[i]).0 == queue {
                    final(self).model() == m
                } else {
                    final(self).model() == m.push((queue, now_secs))
                }
            }),
    {
        let mut i: usize = 0;
        while i < self.entries.len()
            invariant
                self.inv(),
                0 <= i <= self.entries@.len(),
                forall|j: int| 0 <= j < i ==> (#[trigger] self.entries@[j]).0 != queue,
            decreases self.entries@.len() - i,
        {
            if self.entries[i].0 == queue {
                return ;
            }
            i = i + 1;
        }
        let ghost before = self.entries@;
        self.entries.push((queue, now_secs));
        proof {
            assert forall|a: int, b: int| 0 <= a < b < self.entries@.len() implies (
            #[trigger] self.entries@[a]).0 != (#[trigger] self.entries@[b]).0 by {
                if b + 1 < self.entries@.len() {
                    assert(self.entries@[a] == before[a] && self.entries@[b] == before[b]);
                } else {
                    assert(self.entries@[a] == before[a]);
                }
            }
            assert forall|a: int, b: int| 0 <= a < b < self.entries@.len() implies (
            #[trigger] self.entries@[a]).1 <= (#[trigger] self.entries@[b]).1 by {
                if b + 1 < self.entries@.len() {
                    assert(self.entries@[a] == before[a] && self.entries@[b] == before[b]);
                } else {
                    assert(self.entries@[a] == before[a]);
                }
            }
        }
    }

    /// Deregister a queue, as after it emptied or was migrated.
    pub fn deregister(&mut self, queue: QueueId)
        requires
            old(self).inv(),
        ensures
            final(self).inv(),
            forall|i: int|
                0 <= i < final(self).model().len() ==> (#[trigger] final(self).model()[i]).0
                    != queue,
    {
        let mut i: usize = 0;
        while i < self.entries.len()
            invariant
                self.inv(),
                0 <= i <= self.entries@.len(),
                forall|j: int| 0 <= j < i ==> (#[trigger] self.entries@[j]).0 != queue,
            decreases self.entries@.len() - i,
        {
            if self.entries[i].0 == queue {
                let ghost before = self.entries@;
                let _ = self.entries.remove(i);
                proof {
                    assert forall|a: int, b: int| 0 <= a < b < self.entries@.len() implies (
                    #[trigger] self.entries@[a]).0 != (#[trigger] self.entries@[b]).0 && (
                    #[trigger] self.entries@[a]).1 <= (#[trigger] self.entries@[b]).1 by {
                        let a0 = if a < i {
                            a
                        } else {
                            a + 1
                        };
                        let b0 = if b < i {
                            b
                        } else {
                            b + 1
                        };
                        assert(self.entries@[a] == before[a0] && self.entries@[b] == before[b0]);
                    }
                    assert forall|j: int| 0 <= j < self.entries@.len() implies (
                    #[trigger] self.entries@[j]).0 != queue by {
                        let j0 = if j < i {
                            j
                        } else {
                            j + 1
                        };
                        assert(self.entries@[j] == before[j0]);
                        if j0 != i && before[j0].0 == queue {
                            assert(before[i as int].0 == queue);
                            assert(false);
                        }
                    }
                }
                return ;
            }
            i = i + 1;
        }
    }

    /// The queues registered at or before the cutoff, oldest first: what
    /// the persister migrates this round.
    pub fn due(&self, cutoff_secs: u64) -> (r: Vec<QueueId>)
        requires
            self.inv(),
        ensures
            ({
                let m = self.model();
                let s = split_due(m, cutoff_secs);
                r@ == m.take(s).map_values(|p: (QueueId, u64)| p.0)
            }),
    {
        let ghost m = self.model();
        let mut out: Vec<QueueId> = Vec::new();
        let mut i: usize = 0;
        proof {
            assert(out@ =~= m.take(0).map_values(|p: (QueueId, u64)| p.0));
        }
        while i < self.entries.len() && self.entries[i].1 <= cutoff_secs
            invariant
                self.inv(),
                m == self.model(),
                0 <= i <= self.entries@.len(),
                forall|j: int| 0 <= j < i ==> (#[trigger] m[j]).1 <= cutoff_secs,
                out@ == m.take(i as int).map_values(|p: (QueueId, u64)| p.0),
            decreases self.entries@.len() - i,
        {
            proof {
                assert(m.take(i + 1) =~= m.take(i as int).push(m[i as int]));
                assert(m.take(i + 1).map_values(|p: (QueueId, u64)| p.0) =~= m.take(
                    i as int,
                ).map_values(|p: (QueueId, u64)| p.0).push(m[i as int].0));
            }
            out.push(self.entries[i].0);
            i = i + 1;
        }
        proof {
            lemma_split_due(m, cutoff_secs, i as int);
        }
        out
    }
}

/// How many leading registrations are at or before the cutoff.
pub open spec fn split_due(m: Seq<(QueueId, u64)>, cutoff: u64) -> int
    decreases m.len(),
{
    if m.len() == 0 {
        0
    } else if m.first().1 > cutoff {
        0
    } else {
        1 + split_due(m.drop_first(), cutoff)
    }
}

proof fn lemma_split_due(m: Seq<(QueueId, u64)>, cutoff: u64, i: int)
    requires
        0 <= i <= m.len(),
        forall|j: int| 0 <= j < i ==> (#[trigger] m[j]).1 <= cutoff,
        i < m.len() ==> m[i].1 > cutoff,
    ensures
        split_due(m, cutoff) == i,
    decreases i,
{
    if m.len() == 0 {
    } else if i == 0 {
    } else {
        assert(m.first().1 <= cutoff);
        assert(forall|j: int| 0 <= j < i - 1 ==> (#[trigger] m.drop_first()[j]).1 <= cutoff) by {
            assert(forall|j: int|
                0 <= j < m.drop_first().len() ==> m.drop_first()[j] == m[j + 1]);
        }
        assert(i - 1 < m.drop_first().len() ==> m.drop_first()[i - 1].1 > cutoff);
        lemma_split_due(m.drop_first(), cutoff, i - 1);
    }
}

/// Store one deniable payload for a receiver, register its queue in the
/// global time-ordered index under the caller's clock reading, and raise
/// the cached-data signal: the insert of the buffer store composed with
/// what must follow it.
pub fn insert_payload_notifying<T: AvailabilityListener>(
    manager: &mut DenIMManager,
    index: &mut PersistenceIndex,
    listeners: &mut ListenerRegistry<T>,
    receiver: DeviceAddress,
    payload: &DeniablePayload,
    guid: &Vec<u8>,
    now_secs: u64,
) -> (r: u64)
    requires
        old(manager).inv(),
        old(index).inv(),
        old(listeners).inv(),
        payload_bytes(payload.model()).len() <= 0x7fff_ffff,
        queue_or_empty(
            old(manager).payload_queues_model(),
            QueueId { address: receiver, role: Buffer::Receiver },
        ).counter < u64::MAX,
        forall|i: int|
            0 <= i < old(index).model().len() ==> (#[trigger] old(index).model()[i]).1
                <= now_secs,
    ensures
        final(manager).inv(),
        final(index).inv(),
        final(listeners).inv(),
        final(manager).q() == old(manager).q(),
        final(manager).chunk_queues_model() == old(manager).chunk_queues_model(),
        ({
            let k = QueueId { address: receiver, role: Buffer::Receiver };
            let q0 = queue_or_empty(old(manager).payload_queues_model(), k);
            let (q1, id) = insert_spec(q0, guid@, payload_bytes(payload.model()));
            final(manager).payload_queues_model() == old(
                manager,
            ).payload_queues_model().insert(k, q1) && r == id
        }),
        ({
            let k = QueueId { address: receiver, role: Buffer::Receiver };
            let m = old(index).model();
            if exists|i: int| 0 <= i < m.len() && (#[trigger] m[i]).0 == k {
                final(index).model() == m
            } else {
                final(index).model() == m.push((k, now_secs))
            }
        }),
        final(listeners).addresses() == old(listeners).addresses(),
{
    let k = QueueId { address: receiver, role: Buffer::Receiver };
    let id = manager.insert_payload(receiver, Buffer::Receiver, payload, guid);
    index.register(k, now_secs);
    let _ = listeners.notify_cached(receiver);
    id
}

/// Remove entries from a queue by guid and, when that empties the queue,
/// deregister it from the global time-ordered index: an emptied queue
/// leaves the persister's rounds.
pub fn remove_values_deregistering(
    queue: &mut BufferQueue,
    index: &mut PersistenceIndex,
    key: QueueId,
    guids: &Vec<Vec<u8>>,
) -> (r: Vec<Vec<u8>>)
    requires
        old(queue).inv(),
        old(index).inv(),
    ensures
        final(queue).inv(),
        final(index).inv(),
        final(queue).model() == remove_list(
            old(queue).model(),
            guids@.map_values(|g: Vec<u8>| g@),
        ),
        r@.map_values(|v: Vec<u8>| v@) == removed_values(
            old(queue).model(),
            guids@.map_values(|g: Vec<u8>| g@),
        ),
        final(queue).model().entries.len() == 0 ==> forall|i: int|
            0 <= i < final(index).model().len() ==> (#[trigger] final(index).model()[i]).0 != key,
        final(queue).model().entries.len() > 0 ==> final(index).model() == old(index).model(),
{
    let removed = queue.remove(guids);
    if queue.entry_count() == 0 {
        index.deregister(key);
    }
    removed
}

} // verus!
