//! The outgoing payload buffer seen by the chunker.
//!
//! An outgoing buffer is an ordered queue of serialized deniable payloads
//! that is drained byte by byte from the head.  Each entry carries the
//! identifier it was enqueued under, its not-yet-consumed tail, and the rank
//! the next data chunk cut from it must carry (`0` for a fresh entry, one
//! less after every partial consume).

use vstd::prelude::*;

use crate::chunk::{DUMMY_FLAG, FINAL_FLAG};

verus! {

/// Mathematical model of one queue entry: its identifier, its remaining
/// bytes, and the rank of the next data chunk cut from it.
pub ghost struct PayloadEntry {
    pub id: u64,
    pub bytes: Seq<u8>,
    pub rank: int,
}

/// Well-formedness of a queue of entries: every entry still has bytes left,
/// ranks are non-positive and bounded, only the head entry may be partially
/// consumed, and identifiers increase strictly from head to tail.
pub open spec fn entries_wf(es: Seq<PayloadEntry>) -> bool {
    &&& forall|i: int|
        0 <= i < es.len() ==> {
            &&& #[trigger] es[i].bytes.len() >= 1
            &&& es[i].rank <= 0
            &&& (-es[i].rank) + es[i].bytes.len() <= 0x7fff_ffff
            &&& (i >= 1 ==> es[i].rank == 0)
        }
    &&& forall|i: int, j: int| 0 <= i < j < es.len() ==> #[trigger] es[i].id < #[trigger] es[j].id
}

/// What a byte-wise dequeue may do: hand back nothing — but only when the
/// buffer is blocked for persistence, is empty, or no bytes were asked for —
/// or consume `n` bytes of the head entry and leave its tail behind with the
/// rank decremented, or consume the whole head entry and drop it, flagging
/// the bytes as final.
pub open spec fn dequeue_post(
    es: Seq<PayloadEntry>,
    es2: Seq<PayloadEntry>,
    blocked: bool,
    n: int,
    bytes: Seq<u8>,
    taken: int,
    flag: i32,
) -> bool {
    ||| ((blocked || es.len() == 0 || n == 0) && bytes.len() == 0 && taken == 0 && flag
        == DUMMY_FLAG && es2 == es)
    ||| {
        &&& es.len() > 0
        &&& 1 <= n < es.first().bytes.len()
        &&& taken == n
        &&& bytes == es.first().bytes.take(n)
        &&& flag as int == es.first().rank
        &&& es2 == es.update(
            0,
            PayloadEntry {
                id: es.first().id,
                bytes: es.first().bytes.skip(n),
                rank: es.first().rank - 1,
            },
        )
    }
    ||| {
        &&& es.len() > 0
        &&& n >= es.first().bytes.len()
        &&& taken == es.first().bytes.len()
        &&& bytes == es.first().bytes
        &&& flag == FINAL_FLAG
        &&& es2 == es.drop_first()
    }
}

/// The byte stream still queued: the concatenation of the remaining bytes of
/// every entry, head first.
pub open spec fn buffered_bytes(es: Seq<PayloadEntry>) -> Seq<u8>
    decreases es.len(),
{
    if es.len() == 0 {
        Seq::empty()
    } else {
        es.first().bytes + buffered_bytes(es.drop_first())
    }
}

/// An ordered source of deniable payload bytes that the chunker drains.
///
/// Implementations may refuse to hand out bytes at any call (an empty queue,
/// or one that is locked for persistence); the chunker then emits a dummy
/// chunk, which an observer cannot tell from an idle sender.
pub trait DeniableSendingBuffer: Sized {
    /// The entries still queued, head first.
    spec fn entries(&self) -> Seq<PayloadEntry>;

    /// Whether the buffer may refuse bytes: the persistence lock is set.
    /// An unblocked, non-empty buffer asked for at least one byte always
    /// hands data out — cover traffic never displaces real payload.
    spec fn blocked(&self) -> bool;

    /// The implementation's own well-formedness.
    spec fn ok(&self) -> bool;

    /// A well-formed buffer holds a well-formed queue of entries.
    proof fn ok_implies_wf(&self)
        requires
            self.ok(),
        ensures
            entries_wf(self.entries()),
    ;

    /// Take up to `n` bytes from the head entry.  Returns the bytes, how many
    /// were taken, and the wire flag they must be sent under.
    fn dequeue_bytes(&mut self, n: usize) -> (r: (Vec<u8>, usize, i32))
        requires
            old(self).ok(),
        ensures
            final(self).ok(),
            final(self).blocked() == old(self).blocked(),
            dequeue_post(
                old(self).entries(),
                final(self).entries(),
                old(self).blocked(),
                n as int,
                r.0@,
                r.1 as int,
                r.2,
            ),
    ;
}

} // verus!
