//! The ordered, indexed buffer queue.
//!
//! A queue stores serialized payloads under store-assigned, strictly
//! increasing entry identifiers, keeps a two-way mapping between entry
//! identifiers and caller-chosen entry guids, and supports idempotent
//! insert, removal by guid, paged reads, and byte-wise dequeue from the
//! head.  While a queue is locked for durable persistence, reads and
//! dequeues yield nothing, so a drained consumer emits cover traffic
//! instead of blocking.

use vstd::prelude::*;

use crate::chunk::{DUMMY_FLAG, FINAL_FLAG};
use crate::outgoing::{dequeue_post, entries_wf, DeniableSendingBuffer, PayloadEntry};

verus! {

/// Page size of a single `get_values` read.
pub const PAGE_SIZE: usize = 100;

/// Byte-for-byte equality of two byte vectors.
pub fn bytes_eq(a: &Vec<u8>, b: &Vec<u8>) -> (r: bool)
    ensures
        r == (a@ == b@),
{
    if a.len() != b.len() {
        return false;
    }
    let mut i: usize = 0;
    while i < a.len()
        invariant
            0 <= i <= a@.len(),
            a@.len() == b@.len(),
            forall|j: int| 0 <= j < i ==> a@[j] == b@[j],
        decreases a@.len() - i,
    {
        if a[i] != b[i] {
            return false;
        }
        i = i + 1;
    }
    proof {
        assert(a@ =~= b@);
    }
    true
}

/// One stored entry: the identifier the store assigned, the remaining
/// payload bytes, and the rank of the next data chunk cut from it.
pub struct StoredEntry {
    pub entry_id: u64,
    pub payload: Vec<u8>,
    pub rank: i32,
}

impl StoredEntry {
    /// The mathematical entry this row stands for.
    pub open spec fn model(&self) -> PayloadEntry {
        PayloadEntry { id: self.entry_id, bytes: self.payload@, rank: self.rank as int }
    }
}

/// Mathematical model of one queue: the identifier allocator, the live
/// entries in identifier order, the guid-to-identifier mapping and its
/// reverse, and the persistence lock.
#[verifier::ext_equal]
pub ghost struct QueueModel {
    pub counter: u64,
    pub entries: Seq<PayloadEntry>,
    pub fwd: Map<Seq<u8>, u64>,
    pub rev: Map<u64, Seq<u8>>,
    pub locked: bool,
}

/// The map a sequence of guid/identifier pairs stands for.
pub open spec fn fwd_map(s: Seq<(Vec<u8>, u64)>) -> Map<Seq<u8>, u64>
    decreases s.len(),
{
    if s.len() == 0 {
        Map::empty()
    } else {
        fwd_map(s.drop_last()).insert(s.last().0@, s.last().1)
    }
}

/// The map a sequence of identifier/guid pairs stands for.
pub open spec fn rev_map(s: Seq<(u64, Vec<u8>)>) -> Map<u64, Seq<u8>>
    decreases s.len(),
{
    if s.len() == 0 {
        Map::empty()
    } else {
        rev_map(s.drop_last()).insert(s.last().0, s.last().1@)
    }
}

/// No two pairs share a guid.
pub open spec fn fwd_nodup(s: Seq<(Vec<u8>, u64)>) -> bool {
    forall|i: int, j: int| 0 <= i < j < s.len() ==> (#[trigger] s[i]).0@ != (#[trigger] s[j]).0@
}

/// No two pairs share an identifier.
pub open spec fn rev_nodup(s: Seq<(u64, Vec<u8>)>) -> bool {
    forall|i: int, j: int| 0 <= i < j < s.len() ==> (#[trigger] s[i]).0 != (#[trigger] s[j]).0
}

/// Invariant of a queue model: entries are well formed, identifiers are
/// live and bounded by the allocator, and the two mappings are mutual
/// inverses covering every live entry.
pub open spec fn model_inv(m: QueueModel) -> bool {
    &&& entries_wf(m.entries)
    &&& forall|i: int|
        0 <= i < m.entries.len() ==> 1 <= (#[trigger] m.entries[i]).id <= m.counter
    &&& forall|i: int| 0 <= i < m.entries.len() ==> m.rev.dom().contains((#[trigger] m.entries[i]).id)
    &&& forall|g: Seq<u8>|
        m.fwd.dom().contains(g) ==> {
            &&& m.rev.dom().contains(#[trigger] m.fwd[g])
            &&& m.rev[m.fwd[g]] == g
            &&& 1 <= m.fwd[g] <= m.counter
        }
    &&& forall|id: u64|
        m.rev.dom().contains(id) ==> {
            &&& m.fwd.dom().contains(#[trigger] m.rev[id])
            &&& m.fwd[m.rev[id]] == id
            &&& 1 <= id <= m.counter
        }
}

/// A guid-keyed lookup in the pair list equals a lookup in its map.
proof fn lemma_fwd_map_index(s: Seq<(Vec<u8>, u64)>, i: int)
    requires
        fwd_nodup(s),
        0 <= i < s.len(),
    ensures
        fwd_map(s).dom().contains(s[i].0@),
        fwd_map(s)[s[i].0@] == s[i].1,
    decreases s.len(),
{
    if i + 1 < s.len() {
        assert(s.drop_last()[i] == s[i]);
        lemma_fwd_map_index(s.drop_last(), i);
        assert(s.last().0@ != s[i].0@);
    }
}

proof fn lemma_fwd_map_absent(s: Seq<(Vec<u8>, u64)>, g: Seq<u8>)
    requires
        forall|i: int| 0 <= i < s.len() ==> (#[trigger] s[i]).0@ != g,
    ensures
        !fwd_map(s).dom().contains(g),
    decreases s.len(),
{
    if s.len() > 0 {
        assert(forall|i: int| 0 <= i < s.drop_last().len() ==> (#[trigger] s.drop_last()[i]).0@
            != g);
        lemma_fwd_map_absent(s.drop_last(), g);
    }
}

proof fn lemma_rev_map_index(s: Seq<(u64, Vec<u8>)>, i: int)
    requires
        rev_nodup(s),
        0 <= i < s.len(),
    ensures
        rev_map(s).dom().contains(s[i].0),
        rev_map(s)[s[i].0] == s[i].1@,
    decreases s.len(),
{
    if i + 1 < s.len() {
        assert(s.drop_last()[i] == s[i]);
        lemma_rev_map_index(s.drop_last(), i);
        assert(s.last().0 != s[i].0);
    }
}

proof fn lemma_rev_map_absent(s: Seq<(u64, Vec<u8>)>, id: u64)
    requires
        forall|i: int| 0 <= i < s.len() ==> (#[trigger] s[i]).0 != id,
    ensures
        !rev_map(s).dom().contains(id),
    decreases s.len(),
{
    if s.len() > 0 {
        assert(forall|i: int| 0 <= i < s.drop_last().len() ==> (#[trigger] s.drop_last()[i]).0
            != id);
        lemma_rev_map_absent(s.drop_last(), id);
    }
}

/// Index of the first entry carrying `id`, or the length when none does.
pub open spec fn entry_index_of(es: Seq<PayloadEntry>, id: u64) -> int
    decreases es.len(),
{
    if es.len() == 0 {
        0
    } else if es.first().id == id {
        0
    } else {
        1 + entry_index_of(es.drop_first(), id)
    }
}

/// Whether some entry carries `id`.
pub open spec fn has_entry(es: Seq<PayloadEntry>, id: u64) -> bool {
    entry_index_of(es, id) < es.len()
}

/// `entry_index_of` names exactly the first matching index.
proof fn lemma_entry_index(es: Seq<PayloadEntry>, id: u64, i: int)
    requires
        0 <= i <= es.len(),
        forall|j: int| 0 <= j < i ==> (#[trigger] es[j]).id != id,
        i < es.len() ==> es[i].id == id,
    ensures
        entry_index_of(es, id) == i,
        i < es.len() ==> has_entry(es, id),
        i == es.len() ==> !has_entry(es, id),
    decreases i,
{
    if es.len() == 0 {
    } else if i == 0 {
    } else {
        assert(es.first().id != id);
        assert(forall|j: int| 0 <= j < i - 1 ==> (#[trigger] es.drop_first()[j]).id != id) by {
            assert(forall|j: int| 0 <= j < i - 1 ==> es.drop_first()[j] == es[j + 1]);
        }
        assert(i - 1 < es.drop_first().len() ==> es.drop_first()[i - 1].id == id);
        lemma_entry_index(es.drop_first(), id, i - 1);
    }
}

/// Removing the pair at `j` removes its key from the map.
proof fn lemma_fwd_map_remove(s: Seq<(Vec<u8>, u64)>, j: int)
    requires
        fwd_nodup(s),
        0 <= j < s.len(),
    ensures
        fwd_map(s.remove(j)) =~= fwd_map(s).remove(s[j].0@),
        fwd_nodup(s.remove(j)),
    decreases s.len(),
{
    assert forall|a: int, b: int| 0 <= a < b < s.remove(j).len() implies (#[trigger] s.remove(
        j,
    )[a]).0@ != (#[trigger] s.remove(j)[b]).0@ by {
        let a0 = if a < j {
            a
        } else {
            a + 1
        };
        let b0 = if b < j {
            b
        } else {
            b + 1
        };
        assert(s.remove(j)[a] == s[a0] && s.remove(j)[b] == s[b0]);
    }
    if j == s.len() - 1 {
        assert(s.remove(j) =~= s.drop_last());
        assert(forall|i: int| 0 <= i < s.drop_last().len() ==> (#[trigger] s.drop_last()[i]).0@
            != s[j].0@);
        lemma_fwd_map_absent(s.drop_last(), s[j].0@);
        assert(fwd_map(s).remove(s[j].0@) =~= fwd_map(s.drop_last()));
    } else {
        assert(s.remove(j).drop_last() =~= s.drop_last().remove(j));
        assert(s.remove(j).last() == s.last());
        assert(s.drop_last()[j] == s[j]);
        lemma_fwd_map_remove(s.drop_last(), j);
        assert(fwd_map(s.remove(j)) == fwd_map(s.drop_last().remove(j)).insert(
            s.last().0@,
            s.last().1,
        ));
        assert(s[j].0@ != s.last().0@);
        assert(fwd_map(s.drop_last()).remove(s[j].0@).insert(s.last().0@, s.last().1)
            =~= fwd_map(s.drop_last()).insert(s.last().0@, s.last().1).remove(s[j].0@));
    }
}

/// Removing the pair at `j` removes its identifier from the reverse map.
proof fn lemma_rev_map_remove(s: Seq<(u64, Vec<u8>)>, j: int)
    requires
        rev_nodup(s),
        0 <= j < s.len(),
    ensures
        rev_map(s.remove(j)) =~= rev_map(s).remove(s[j].0),
        rev_nodup(s.remove(j)),
    decreases s.len(),
{
    assert forall|a: int, b: int| 0 <= a < b < s.remove(j).len() implies (#[trigger] s.remove(
        j,
    )[a]).0 != (#[trigger] s.remove(j)[b]).0 by {
        let a0 = if a < j {
            a
        } else {
            a + 1
        };
        let b0 = if b < j {
            b
        } else {
            b + 1
        };
        assert(s.remove(j)[a] == s[a0] && s.remove(j)[b] == s[b0]);
    }
    if j == s.len() - 1 {
        assert(s.remove(j) =~= s.drop_last());
        assert(forall|i: int| 0 <= i < s.drop_last().len() ==> (#[trigger] s.drop_last()[i]).0
            != s[j].0);
        lemma_rev_map_absent(s.drop_last(), s[j].0);
        assert(rev_map(s).remove(s[j].0) =~= rev_map(s.drop_last()));
    } else {
        assert(s.remove(j).drop_last() =~= s.drop_last().remove(j));
        assert(s.remove(j).last() == s.last());
        assert(s.drop_last()[j] == s[j]);
        lemma_rev_map_remove(s.drop_last(), j);
        assert(rev_map(s.remove(j)) == rev_map(s.drop_last().remove(j)).insert(
            s.last().0,
            s.last().1@,
        ));
        assert(s[j].0 != s.last().0);
        assert(rev_map(s.drop_last()).remove(s[j].0).insert(s.last().0, s.last().1@)
            =~= rev_map(s.drop_last()).insert(s.last().0, s.last().1@).remove(s[j].0));
    }
}

/// Bounds and characterization of `entry_index_of`.
proof fn lemma_entry_index_bounds(es: Seq<PayloadEntry>, id: u64)
    ensures
        0 <= entry_index_of(es, id) <= es.len(),
        has_entry(es, id) ==> es[entry_index_of(es, id)].id == id,
        forall|j: int| 0 <= j < entry_index_of(es, id) ==> (#[trigger] es[j]).id != id,
        !has_entry(es, id) ==> forall|j: int| 0 <= j < es.len() ==> (#[trigger] es[j]).id != id,
    decreases es.len(),
{
    if es.len() > 0 && es.first().id != id {
        lemma_entry_index_bounds(es.drop_first(), id);
        assert(forall|j: int|
            0 <= j < es.drop_first().len() ==> es.drop_first()[j] == es[j + 1]);
        let idx = entry_index_of(es, id);
        assert forall|j: int| 0 <= j < idx implies (#[trigger] es[j]).id != id by {
            if j > 0 {
                assert(es.drop_first()[j - 1].id != id);
            }
        }
        if !has_entry(es, id) {
            assert forall|j: int| 0 <= j < es.len() implies (#[trigger] es[j]).id != id by {
                if j > 0 {
                    assert(es.drop_first()[j - 1].id != id);
                }
            }
        }
    }
}

/// Removing one guid preserves the queue invariant.
pub proof fn lemma_remove_keeps_inv(m: QueueModel, g: Seq<u8>)
    requires
        model_inv(m),
    ensures
        model_inv(remove_one(m, g)),
{
    if m.fwd.dom().contains(g) {
        let id = m.fwd[g];
        let m2 = remove_one(m, g);
        lemma_entry_index_bounds(m.entries, id);
        if has_entry(m.entries, id) {
            let idx = entry_index_of(m.entries, id);
            assert(forall|i: int|
                0 <= i < m2.entries.len() ==> m2.entries[i] == (if i < idx {
                    m.entries[i]
                } else {
                    m.entries[i + 1]
                }));
            assert(entries_wf(m2.entries)) by {
                assert forall|i: int| 0 <= i < m2.entries.len() implies {
                    &&& #[trigger] m2.entries[i].bytes.len() >= 1
                    &&& m2.entries[i].rank <= 0
                    &&& (-m2.entries[i].rank) + m2.entries[i].bytes.len() <= 0x7fff_ffff
                    &&& (i >= 1 ==> m2.entries[i].rank == 0)
                } by {
                    let i0 = if i < idx {
                        i
                    } else {
                        i + 1
                    };
                    assert(m2.entries[i] == m.entries[i0]);
                    if i >= 1 {
                        assert(i0 >= 1);
                    }
                }
                assert forall|a: int, b: int| 0 <= a < b < m2.entries.len() implies (
                #[trigger] m2.entries[a]).id < (#[trigger] m2.entries[b]).id by {
                    let a0 = if a < idx {
                        a
                    } else {
                        a + 1
                    };
                    let b0 = if b < idx {
                        b
                    } else {
                        b + 1
                    };
                    assert(m2.entries[a] == m.entries[a0] && m2.entries[b] == m.entries[b0]);
                }
            }
            assert forall|i: int| 0 <= i < m2.entries.len() implies m2.rev.dom().contains((
            #[trigger] m2.entries[i]).id) by {
                let i0 = if i < idx {
                    i
                } else {
                    i + 1
                };
                assert(m2.entries[i] == m.entries[i0]);
                assert(m.rev.dom().contains(m.entries[i0].id));
                if m.entries[i0].id == id {
                    assert(m.entries[idx].id == id);
                    assert(i0 != idx);
                    assert(false);
                }
            }
        } else {
            assert forall|i: int| 0 <= i < m2.entries.len() implies m2.rev.dom().contains((
            #[trigger] m2.entries[i]).id) by {
                assert(m2.entries[i].id != id);
            }
        }
        assert forall|g2: Seq<u8>| m2.fwd.dom().contains(g2) implies {
            &&& m2.rev.dom().contains(#[trigger] m2.fwd[g2])
            &&& m2.rev[m2.fwd[g2]] == g2
            &&& 1 <= m2.fwd[g2] <= m2.counter
        } by {
            assert(m.fwd.dom().contains(g2) && g2 != g);
            if m.fwd[g2] == id {
                assert(m.rev[id] == g2 && m.rev[id] == g);
                assert(false);
            }
        }
        assert forall|id2: u64| m2.rev.dom().contains(id2) implies {
            &&& m2.fwd.dom().contains(#[trigger] m2.rev[id2])
            &&& m2.fwd[m2.rev[id2]] == id2
            &&& 1 <= id2 <= m2.counter
        } by {
            assert(m.rev.dom().contains(id2) && id2 != id);
            if m.rev[id2] == g {
                assert(m.fwd[g] == id2 && m.fwd[g] == id);
                assert(false);
            }
        }
    }
}

/// What removing one guid does to a queue: nothing for an unknown guid;
/// otherwise the guid's entry, if live, leaves the queue, and the guid and
/// its identifier leave both mappings.
pub open spec fn remove_one(m: QueueModel, g: Seq<u8>) -> QueueModel {
    if m.fwd.dom().contains(g) {
        let id = m.fwd[g];
        QueueModel {
            counter: m.counter,
            entries: if has_entry(m.entries, id) {
                m.entries.remove(entry_index_of(m.entries, id))
            } else {
                m.entries
            },
            fwd: m.fwd.remove(g),
            rev: m.rev.remove(id),
            locked: m.locked,
        }
    } else {
        m
    }
}

/// The payload bytes removing one guid hands back, if its entry was live.
pub open spec fn removed_value(m: QueueModel, g: Seq<u8>) -> Option<Seq<u8>> {
    if m.fwd.dom().contains(g) && has_entry(m.entries, m.fwd[g]) {
        Some(m.entries[entry_index_of(m.entries, m.fwd[g])].bytes)
    } else {
        None
    }
}

/// Removing a list of guids, in order.
pub open spec fn remove_list(m: QueueModel, gs: Seq<Seq<u8>>) -> QueueModel
    decreases gs.len(),
{
    if gs.len() == 0 {
        m
    } else {
        remove_list(remove_one(m, gs.first()), gs.drop_first())
    }
}

/// The values handed back by removing a list of guids, in order.
pub open spec fn removed_values(m: QueueModel, gs: Seq<Seq<u8>>) -> Seq<Seq<u8>>
    decreases gs.len(),
{
    if gs.len() == 0 {
        Seq::empty()
    } else {
        (match removed_value(m, gs.first()) {
            Some(v) => seq![v],
            None => Seq::<Seq<u8>>::empty(),
        }) + removed_values(remove_one(m, gs.first()), gs.drop_first())
    }
}

/// How many leading entries have identifiers at or below `after`.
pub open spec fn split_at(es: Seq<PayloadEntry>, after: u64) -> int
    decreases es.len(),
{
    if es.len() == 0 {
        0
    } else if es.first().id > after {
        0
    } else {
        1 + split_at(es.drop_first(), after)
    }
}

/// The page a read returns: up to `PAGE_SIZE` entries whose identifiers
/// exceed `after`, in identifier order.  With identifiers increasing from
/// head to tail these form a segment right after the split point.
pub open spec fn page_of(es: Seq<PayloadEntry>, after: u64) -> Seq<PayloadEntry> {
    let s = split_at(es, after);
    if es.len() - s <= PAGE_SIZE {
        es.skip(s)
    } else {
        es.subrange(s, s + PAGE_SIZE)
    }
}

/// `split_at` names exactly the scan's stopping point.
proof fn lemma_split_at(es: Seq<PayloadEntry>, after: u64, i: int)
    requires
        0 <= i <= es.len(),
        forall|j: int| 0 <= j < i ==> (#[trigger] es[j]).id <= after,
        i < es.len() ==> es[i].id > after,
    ensures
        split_at(es, after) == i,
    decreases i,
{
    if es.len() == 0 {
    } else if i == 0 {
    } else {
        assert(es.first().id <= after);
        assert(forall|j: int| 0 <= j < i - 1 ==> (#[trigger] es.drop_first()[j]).id <= after) by {
            assert(forall|j: int|
                0 <= j < es.drop_first().len() ==> es.drop_first()[j] == es[j + 1]);
        }
        assert(i - 1 < es.drop_first().len() ==> es.drop_first()[i - 1].id > after);
        lemma_split_at(es.drop_first(), after, i - 1);
    }
}

/// What inserting a guid does to a queue: a known guid returns its
/// identifier and changes nothing; a fresh one is stored under the next
/// identifier and registered both ways.
pub open spec fn insert_spec(m: QueueModel, g: Seq<u8>, v: Seq<u8>) -> (QueueModel, u64) {
    if m.fwd.dom().contains(g) {
        (m, m.fwd[g])
    } else {
        let id = (m.counter + 1) as u64;
        (
            QueueModel {
                counter: id,
                entries: m.entries.push(PayloadEntry { id: id, bytes: v, rank: 0 }),
                fwd: m.fwd.insert(g, id),
                rev: m.rev.insert(id, g),
                locked: m.locked,
            },
            id,
        )
    }
}

/// How many entries carry `id`.
pub open spec fn count_id(es: Seq<PayloadEntry>, id: u64) -> int
    decreases es.len(),
{
    if es.len() == 0 {
        0
    } else {
        (if es.first().id == id {
            1int
        } else {
            0int
        }) + count_id(es.drop_first(), id)
    }
}

proof fn lemma_count_id_zero(es: Seq<PayloadEntry>, id: u64)
    requires
        forall|i: int| 0 <= i < es.len() ==> (#[trigger] es[i]).id != id,
    ensures
        count_id(es, id) == 0,
    decreases es.len(),
{
    if es.len() > 0 {
        assert(forall|i: int|
            0 <= i < es.drop_first().len() ==> es.drop_first()[i] == es[i + 1]);
        lemma_count_id_zero(es.drop_first(), id);
    }
}

proof fn lemma_count_id_push(es: Seq<PayloadEntry>, e: PayloadEntry, id: u64)
    ensures
        count_id(es.push(e), id) == count_id(es, id) + (if e.id == id {
            1int
        } else {
            0int
        }),
    decreases es.len(),
{
    assert(es.push(e).len() == es.len() + 1);
    if es.len() == 0 {
        assert(es.push(e).first() == e);
        assert(es.push(e).drop_first() =~= Seq::<PayloadEntry>::empty());
        assert(count_id(Seq::<PayloadEntry>::empty(), id) == 0);
    } else {
        assert(es.push(e).first() == es.first());
        assert(es.push(e).drop_first() =~= es.drop_first().push(e));
        lemma_count_id_push(es.drop_first(), e, id);
    }
}

/// Inserting a guid, then inserting it again with any value, returns the
/// same identifier both times, leaves the queue exactly as the first insert
/// left it, and a guid inserted fresh has exactly one entry. (law)
pub proof fn lemma_insert_idempotent(m: QueueModel, g: Seq<u8>, v: Seq<u8>, v2: Seq<u8>)
    requires
        model_inv(m),
        m.counter < u64::MAX,
    ensures
        ({
            let (m1, id1) = insert_spec(m, g, v);
            let (m2, id2) = insert_spec(m1, g, v2);
            &&& id2 == id1
            &&& m2 == m1
            &&& m1.fwd.dom().contains(g) && m1.fwd[g] == id1
            &&& !m.fwd.dom().contains(g) ==> count_id(m1.entries, id1) == 1
        }),
{
    let (m1, id1) = insert_spec(m, g, v);
    if !m.fwd.dom().contains(g) {
        assert forall|i: int| 0 <= i < m.entries.len() implies (#[trigger] m.entries[i]).id
            != id1 by {
            assert(1 <= m.entries[i].id <= m.counter);
        }
        lemma_count_id_zero(m.entries, id1);
        lemma_count_id_push(m.entries, PayloadEntry { id: id1, bytes: v, rank: 0 }, id1);
    }
}

/// Forward and reverse metadata always agree: a guid's identifier maps back
/// to the guid, and an identifier's guid maps back to the identifier. (law)
pub proof fn lemma_reverse_lookup_consistent(m: QueueModel)
    requires
        model_inv(m),
    ensures
        forall|g: Seq<u8>|
            m.fwd.dom().contains(g) ==> m.rev.dom().contains(#[trigger] m.fwd[g]) && m.rev[m.fwd[g]]
                == g,
        forall|id: u64|
            m.rev.dom().contains(id) ==> m.fwd.dom().contains(#[trigger] m.rev[id])
                && m.fwd[m.rev[id]] == id,
{
}

/// An ordered, indexed, lockable queue of serialized payloads.
pub struct BufferQueue {
    counter: u64,
    entries: Vec<StoredEntry>,
    guid_to_id: Vec<(Vec<u8>, u64)>,
    id_to_guid: Vec<(u64, Vec<u8>)>,
    locked: bool,
}

impl BufferQueue {
    /// The model this queue stands for.
    pub closed spec fn model(&self) -> QueueModel {
        QueueModel {
            counter: self.counter,
            entries: self.entries@.map_values(|e: StoredEntry| e.model()),
            fwd: fwd_map(self.guid_to_id@),
            rev: rev_map(self.id_to_guid@),
            locked: self.locked,
        }
    }

    /// Representation and model invariants together.
    pub closed spec fn inv(&self) -> bool {
        &&& fwd_nodup(self.guid_to_id@)
        &&& rev_nodup(self.id_to_guid@)
        &&& model_inv(self.model())
    }

    /// A sound queue holds well-formed entries.
    pub proof fn lemma_inv_entries_wf(&self)
        requires
            self.inv(),
        ensures
            entries_wf(self.model().entries),
    {
    }

    /// A fresh, empty, unlocked queue.
    pub fn new() -> (q: BufferQueue)
        ensures
            q.inv(),
            q.model() == (QueueModel {
                counter: 0,
                entries: Seq::empty(),
                fwd: Map::empty(),
                rev: Map::empty(),
                locked: false,
            }),
    {
        let q = BufferQueue {
            counter: 0,
            entries: Vec::new(),
            guid_to_id: Vec::new(),
            id_to_guid: Vec::new(),
            locked: false,
        };
        proof {
            assert(q.entries@.map_values(|e: StoredEntry| e.model()) =~= Seq::<
                PayloadEntry,
            >::empty());
        }
        q
    }

    /// How many entries the queue holds.
    pub fn entry_count(&self) -> (r: usize)
        ensures
            r == self.model().entries.len(),
    {
        self.entries.len()
    }

    /// Whether the persistence lock is set.
    pub fn is_locked(&self) -> (r: bool)
        ensures
            r == self.model().locked,
    {
        self.locked
    }

    /// Set the persistence lock, as the background persister does before
    /// migrating the queue to durable storage.
    pub fn lock_for_persistence(&mut self)
        requires
            old(self).inv(),
        ensures
            final(self).inv(),
            final(self).model() == (QueueModel { locked: true, ..old(self).model() }),
    {
        self.locked = true;
    }

    /// Clear the persistence lock.
    pub fn unlock_after_persistence(&mut self)
        requires
            old(self).inv(),
        ensures
            final(self).inv(),
            final(self).model() == (QueueModel { locked: false, ..old(self).model() }),
    {
        self.locked = false;
    }

    /// Idempotent insert: a guid already present returns its existing
    /// identifier and changes nothing; a fresh guid is stored under the next
    /// identifier, registered in both mappings, with its rank counter at
    /// zero.
    pub fn insert(&mut self, guid: &Vec<u8>, value: Vec<u8>) -> (r: u64)
        requires
            old(self).inv(),
            old(self).model().counter < u64::MAX,
            1 <= value@.len() <= 0x7fff_ffff,
        ensures
            final(self).inv(),
            (final(self).model(), r) == insert_spec(old(self).model(), guid@, value@),
            ({
                let m = old(self).model();
                let m2 = final(self).model();
                if m.fwd.dom().contains(guid@) {
                    r == m.fwd[guid@] && m2 == m
                } else {
                    &&& r == m.counter + 1
                    &&& m2 == (QueueModel {
                        counter: (m.counter + 1) as u64,
                        entries: m.entries.push(PayloadEntry { id: r, bytes: value@, rank: 0 }),
                        fwd: m.fwd.insert(guid@, r),
                        rev: m.rev.insert(r, guid@),
                        locked: m.locked,
                    })
                }
            }),
    {
        if let Some(id) = self.find_guid(guid) {
            return id;
        }
        let ghost m = self.model();
        proof {
            assert forall|i: int| 0 <= i < self.guid_to_id@.len() implies (
            #[trigger] self.guid_to_id@[i]).0@ != guid@ by {
                if self.guid_to_id@[i].0@ == guid@ {
                    lemma_fwd_map_index(self.guid_to_id@, i);
                }
            }
            assert forall|i: int| 0 <= i < self.id_to_guid@.len() implies (
            #[trigger] self.id_to_guid@[i]).0 != m.counter + 1 by {
                lemma_rev_map_index(self.id_to_guid@, i);
            }
        }
        self.counter = self.counter + 1;
        let id = self.counter;
        let guid_copy = crate::chunker::copy_range(guid, 0, guid.len());
        let guid_copy2 = crate::chunker::copy_range(guid, 0, guid.len());
        proof {
            assert(guid_copy@ =~= guid@);
            assert(guid_copy2@ =~= guid@);
        }
        self.entries.push(StoredEntry { entry_id: id, payload: value, rank: 0 });
        self.guid_to_id.push((guid_copy, id));
        self.id_to_guid.push((id, guid_copy2));
        proof {
            let m2 = self.model();
            assert(self.guid_to_id@.drop_last() =~= old(self).guid_to_id@);
            assert(self.id_to_guid@.drop_last() =~= old(self).id_to_guid@);
            assert(m2.fwd =~= m.fwd.insert(guid@, id));
            assert(m2.rev =~= m.rev.insert(id, guid@));
            assert(m2.entries =~= m.entries.push(
                PayloadEntry { id: id, bytes: value@, rank: 0 },
            ));
            assert(m2 =~= (QueueModel {
                counter: id,
                entries: m.entries.push(PayloadEntry { id: id, bytes: value@, rank: 0 }),
                fwd: m.fwd.insert(guid@, id),
                rev: m.rev.insert(id, guid@),
                locked: m.locked,
            }));
            assert(entries_wf(m2.entries)) by {
                assert(forall|i: int|
                    0 <= i < m.entries.len() ==> m2.entries[i] == m.entries[i]);
                assert(m2.entries.last() == (PayloadEntry { id: id, bytes: value@, rank: 0 }));
            }
            assert(fwd_nodup(self.guid_to_id@)) by {
                let s = self.guid_to_id@;
                assert forall|i: int, j: int| 0 <= i < j < s.len() implies (#[trigger] s[i]).0@
                    != (#[trigger] s[j]).0@ by {
                    if j + 1 < s.len() {
                        assert(s[i] == old(self).guid_to_id@[i]);
                        assert(s[j] == old(self).guid_to_id@[j]);
                    } else {
                        assert(s[j].0@ == guid@);
                        assert(s[i] == old(self).guid_to_id@[i]);
                    }
                }
            }
            assert(rev_nodup(self.id_to_guid@)) by {
                let s = self.id_to_guid@;
                assert forall|i: int, j: int| 0 <= i < j < s.len() implies (#[trigger] s[i]).0
                    != (#[trigger] s[j]).0 by {
                    if j + 1 < s.len() {
                        assert(s[i] == old(self).id_to_guid@[i]);
                        assert(s[j] == old(self).id_to_guid@[j]);
                    } else {
                        assert(s[j].0 == id);
                        assert(s[i] == old(self).id_to_guid@[i]);
                    }
                }
            }
            assert(model_inv(m2)) by {
                assert(forall|i: int|
                    0 <= i < m2.entries.len() ==> 1 <= (#[trigger] m2.entries[i]).id
                        <= m2.counter);
                assert forall|g: Seq<u8>| m2.fwd.dom().contains(g) implies {
                    &&& m2.rev.dom().contains(#[trigger] m2.fwd[g])
                    &&& m2.rev[m2.fwd[g]] == g
                    &&& 1 <= m2.fwd[g] <= m2.counter
                } by {
                    if g == guid@ {
                    } else {
                        assert(m.fwd.dom().contains(g));
                        assert(m.fwd[g] <= m.counter);
                        assert(m2.fwd[g] == m.fwd[g]);
                        assert(m2.rev[m.fwd[g]] == m.rev[m.fwd[g]]);
                    }
                }
                assert forall|i2: u64| m2.rev.dom().contains(i2) implies {
                    &&& m2.fwd.dom().contains(#[trigger] m2.rev[i2])
                    &&& m2.fwd[m2.rev[i2]] == i2
                    &&& 1 <= i2 <= m2.counter
                } by {
                    if i2 == id {
                    } else {
                        assert(m.rev.dom().contains(i2));
                        assert(m.rev[i2] == m2.rev[i2]);
                        if m.rev[i2] == guid@ {
                            assert(m.fwd.dom().contains(guid@));
                        }
                    }
                }
            }
        }
        id
    }

    /// Index of the live entry carrying `id`, if any.
    fn index_of_entry(&self, id: u64) -> (r: Option<usize>)
        ensures
            match r {
                Some(j) => j == entry_index_of(self.model().entries, id) && has_entry(
                    self.model().entries,
                    id,
                ),
                None => !has_entry(self.model().entries, id),
            },
    {
        let ghost es = self.model().entries;
        let mut i: usize = 0;
        while i < self.entries.len()
            invariant
                0 <= i <= es.len(),
                es == self.model().entries,
                es.len() == self.entries@.len(),
                forall|j: int| 0 <= j < i ==> (#[trigger] es[j]).id != id,
            decreases es.len() - i,
        {
            if self.entries[i].entry_id == id {
                proof {
                    lemma_entry_index(es, id, i as int);
                }
                return Some(i);
            }
            i = i + 1;
        }
        proof {
            lemma_entry_index(es, id, es.len() as int);
        }
        None
    }

    /// Index of the forward pair carrying `guid`, if any.
    fn index_of_guid_pair(&self, guid: &Vec<u8>) -> (r: Option<usize>)
        ensures
            match r {
                Some(j) => j < self.guid_to_id@.len() && self.guid_to_id@[j as int].0@ == guid@,
                None => forall|i: int|
                    0 <= i < self.guid_to_id@.len() ==> (#[trigger] self.guid_to_id@[i]).0@
                        != guid@,
            },
    {
        let mut i: usize = 0;
        while i < self.guid_to_id.len()
            invariant
                0 <= i <= self.guid_to_id@.len(),
                forall|j: int| 0 <= j < i ==> (#[trigger] self.guid_to_id@[j]).0@ != guid@,
            decreases self.guid_to_id@.len() - i,
        {
            if bytes_eq(&self.guid_to_id[i].0, guid) {
                return Some(i);
            }
            i = i + 1;
        }
        None
    }

    /// Index of the reverse pair carrying `id`, if any.
    fn index_of_id_pair(&self, id: u64) -> (r: Option<usize>)
        ensures
            match r {
                Some(j) => j < self.id_to_guid@.len() && self.id_to_guid@[j as int].0 == id,
                None => forall|i: int|
                    0 <= i < self.id_to_guid@.len() ==> (#[trigger] self.id_to_guid@[i]).0 != id,
            },
    {
        let mut i: usize = 0;
        while i < self.id_to_guid.len()
            invariant
                0 <= i <= self.id_to_guid@.len(),
                forall|j: int| 0 <= j < i ==> (#[trigger] self.id_to_guid@[j]).0 != id,
            decreases self.id_to_guid@.len() - i,
        {
            if self.id_to_guid[i].0 == id {
                return Some(i);
            }
            i = i + 1;
        }
        None
    }

    /// Drop `id` and its guid from both mappings.
    fn drop_mappings(&mut self, id: u64)
        requires
            old(self).inv(),
            old(self).model().rev.dom().contains(id),
        ensures
            fwd_nodup(final(self).guid_to_id@),
            rev_nodup(final(self).id_to_guid@),
            final(self).model() == (QueueModel {
                fwd: old(self).model().fwd.remove(old(self).model().rev[id]),
                rev: old(self).model().rev.remove(id),
                ..old(self).model()
            }),
    {
        let ghost m = self.model();
        let ghost g = m.rev[id];
        let jr = match self.index_of_id_pair(id) {
            Some(j) => j,
            None => {
                proof {
                    lemma_rev_map_absent(self.id_to_guid@, id);
                }
                unreached()
            },
        };
        proof {
            lemma_rev_map_index(self.id_to_guid@, jr as int);
            lemma_rev_map_remove(self.id_to_guid@, jr as int);
        }
        let guid = self.id_to_guid.remove(jr).1;
        let jf = match self.index_of_guid_pair(&guid) {
            Some(j) => j,
            None => {
                proof {
                    assert(m.fwd.dom().contains(g));
                    lemma_fwd_map_absent(self.guid_to_id@, guid@);
                }
                unreached()
            },
        };
        proof {
            lemma_fwd_map_index(self.guid_to_id@, jf as int);
            lemma_fwd_map_remove(self.guid_to_id@, jf as int);
            assert(m.fwd[g] == id);
        }
        let _ = self.guid_to_id.remove(jf);
        proof {
            assert(self.model() =~= (QueueModel {
                fwd: m.fwd.remove(g),
                rev: m.rev.remove(id),
                ..m
            }));
        }
    }

    /// Remove one guid: its entry, if live, leaves the queue and its payload
    /// bytes come back; the guid and its identifier leave both mappings.
    pub fn remove_entry(&mut self, guid: &Vec<u8>) -> (r: Option<Vec<u8>>)
        requires
            old(self).inv(),
        ensures
            final(self).inv(),
            final(self).model() == remove_one(old(self).model(), guid@),
            match r {
                Some(v) => removed_value(old(self).model(), guid@) == Some(v@),
                None => removed_value(old(self).model(), guid@) is None,
            },
    {
        let ghost m = self.model();
        let id = match self.find_guid(guid) {
            Some(id) => id,
            None => {
                return None;
            },
        };
        proof {
            assert(m.rev[id] == guid@);
        }
        self.drop_mappings(id);
        let ghost m1 = self.model();
        match self.index_of_entry(id) {
            Some(j) => {
                proof {
                    assert(m1.entries == m.entries);
                }
                let e = self.entries.remove(j);
                proof {
                    let m2 = self.model();
                    assert(m2.entries =~= m.entries.remove(j as int));
                    assert(m2 =~= remove_one(m, guid@));
                    lemma_remove_keeps_inv(m, guid@);
                }
                Some(e.payload)
            },
            None => {
                proof {
                    assert(self.model() =~= remove_one(m, guid@));
                    lemma_remove_keeps_inv(m, guid@);
                }
                None
            },
        }
    }

    /// Remove a list of guids, in order, returning the payload bytes of every
    /// entry that was live.
    pub fn remove(&mut self, guids: &Vec<Vec<u8>>) -> (r: Vec<Vec<u8>>)
        requires
            old(self).inv(),
        ensures
            final(self).inv(),
            final(self).model() == remove_list(
                old(self).model(),
                guids@.map_values(|g: Vec<u8>| g@),
            ),
            r@.map_values(|v: Vec<u8>| v@) == removed_values(
                old(self).model(),
                guids@.map_values(|g: Vec<u8>| g@),
            ),
    {
        let ghost m0 = self.model();
        let ghost gs = guids@.map_values(|g: Vec<u8>| g@);
        let mut out: Vec<Vec<u8>> = Vec::new();
        let mut i: usize = 0;
        proof {
            assert(out@.map_values(|v: Vec<u8>| v@) =~= Seq::<Seq<u8>>::empty());
            assert(gs.skip(0) =~= gs);
        }
        while i < guids.len()
            invariant
                0 <= i <= guids@.len(),
                gs == guids@.map_values(|g: Vec<u8>| g@),
                self.inv(),
                remove_list(m0, gs) == remove_list(self.model(), gs.skip(i as int)),
                removed_values(m0, gs) == out@.map_values(|v: Vec<u8>| v@) + removed_values(
                    self.model(),
                    gs.skip(i as int),
                ),
            decreases guids@.len() - i,
        {
            let ghost mcur = self.model();
            let ghost rest = gs.skip(i as int);
            proof {
                assert(rest.len() > 0);
                assert(rest.first() == guids@[i as int]@);
                assert(rest.drop_first() =~= gs.skip(i + 1));
            }
            let v = self.remove_entry(&guids[i]);
            proof {
                assert(remove_list(mcur, rest) == remove_list(self.model(), rest.drop_first()));
            }
            match v {
                Some(bytes) => {
                    let ghost bv = bytes@;
                    out.push(bytes);
                    proof {
                        assert(out@.map_values(|v2: Vec<u8>| v2@) =~= out@.drop_last().map_values(
                            |v2: Vec<u8>| v2@,
                        ).push(bv));
                        assert(removed_values(mcur, rest) == seq![bv] + removed_values(
                            self.model(),
                            rest.drop_first(),
                        ));
                        assert(out@.drop_last().map_values(|v2: Vec<u8>| v2@) + (seq![bv]
                            + removed_values(self.model(), rest.drop_first()))
                            =~= out@.map_values(|v2: Vec<u8>| v2@) + removed_values(
                            self.model(),
                            rest.drop_first(),
                        ));
                    }
                },
                None => {
                    proof {
                        assert(removed_values(mcur, rest) == Seq::<Seq<u8>>::empty()
                            + removed_values(self.model(), rest.drop_first()));
                        assert(Seq::<Seq<u8>>::empty() + removed_values(
                            self.model(),
                            rest.drop_first(),
                        ) =~= removed_values(self.model(), rest.drop_first()));
                    }
                },
            }
            i = i + 1;
        }
        proof {
            assert(gs.skip(gs.len() as int) =~= Seq::<Seq<u8>>::empty());
            assert(removed_values(self.model(), Seq::<Seq<u8>>::empty()) =~= Seq::<
                Seq<u8>,
            >::empty());
            assert(out@.map_values(|v: Vec<u8>| v@) + Seq::<Seq<u8>>::empty() =~= out@.map_values(
                |v: Vec<u8>| v@,
            ));
        }
        out
    }

    /// One page of values after a score, with their guids.
    ///
    /// While the persistence lock is set both lists come back empty.
    /// Otherwise the page holds the payload bytes of up to `PAGE_SIZE`
    /// entries whose identifier exceeds `after_score`, in identifier order,
    /// paired with the guids they were inserted under.
    pub fn get_values(&self, after_score: u64) -> (r: (Vec<Vec<u8>>, Vec<Vec<u8>>))
        requires
            self.inv(),
        ensures
            ({
                let m = self.model();
                if m.locked {
                    r.0@.len() == 0 && r.1@.len() == 0
                } else {
                    let page = page_of(m.entries, after_score);
                    &&& r.0@.map_values(|v: Vec<u8>| v@) == page.map_values(
                        |e: PayloadEntry| e.bytes,
                    )
                    &&& r.1@.map_values(|v: Vec<u8>| v@) == page.map_values(
                        |e: PayloadEntry| m.rev[e.id],
                    )
                }
            }),
    {
        let ghost m = self.model();
        if self.locked {
            return (Vec::new(), Vec::new());
        }
        let mut values: Vec<Vec<u8>> = Vec::new();
        let mut guids: Vec<Vec<u8>> = Vec::new();
        let mut i: usize = 0;
        while i < self.entries.len() && self.entries[i].entry_id <= after_score
            invariant
                self.inv(),
                m == self.model(),
                0 <= i <= self.entries@.len(),
                forall|j: int| 0 <= j < i ==> (#[trigger] m.entries[j]).id <= after_score,
            decreases self.entries@.len() - i,
        {
            i = i + 1;
        }
        proof {
            lemma_split_at(m.entries, after_score, i as int);
            assert(values@.map_values(|v: Vec<u8>| v@) =~= Seq::<Seq<u8>>::empty());
            assert(guids@.map_values(|v: Vec<u8>| v@) =~= Seq::<Seq<u8>>::empty());
        }
        let split = i;
        let mut k: usize = 0;
        while k < PAGE_SIZE && k < self.entries.len() - split
            invariant
                self.inv(),
                m == self.model(),
                split == split_at(m.entries, after_score),
                0 <= split <= self.entries@.len(),
                0 <= k <= PAGE_SIZE,
                split + k <= self.entries@.len(),
                values@.map_values(|v: Vec<u8>| v@) == m.entries.subrange(
                    split as int,
                    split + k,
                ).map_values(|e: PayloadEntry| e.bytes),
                guids@.map_values(|v: Vec<u8>| v@) == m.entries.subrange(
                    split as int,
                    split + k,
                ).map_values(|e: PayloadEntry| m.rev[e.id]),
            decreases self.entries@.len() - (split + k),
        {
            let e = &self.entries[split + k];
            proof {
                assert(m.entries[split + k].id == e.entry_id);
                assert(m.rev.dom().contains(e.entry_id));
            }
            let g = match self.find_id(e.entry_id) {
                Some(g) => g,
                None => unreached(),
            };
            let v = crate::chunker::copy_range(&e.payload, 0, e.payload.len());
            let ghost seg = m.entries.subrange(split as int, split + k);
            let ghost me = m.entries[split + k];
            let ghost vv = v@;
            let ghost gv = g@;
            let ghost ov = values@;
            let ghost og = guids@;
            values.push(v);
            guids.push(g);
            proof {
                assert(vv =~= me.bytes);
                assert(gv == m.rev[me.id]);
                assert(m.entries.subrange(split as int, split + k + 1) =~= seg.push(me));
                assert(values@ =~= ov.push(v));
                assert(values@.map_values(|v2: Vec<u8>| v2@) =~= ov.map_values(
                    |v2: Vec<u8>| v2@,
                ).push(vv));
                assert(seg.push(me).map_values(|e2: PayloadEntry| e2.bytes) =~= seg.map_values(
                    |e2: PayloadEntry| e2.bytes,
                ).push(me.bytes));
                assert(guids@.map_values(|v2: Vec<u8>| v2@) =~= og.map_values(
                    |v2: Vec<u8>| v2@,
                ).push(gv));
                assert(seg.push(me).map_values(|e2: PayloadEntry| m.rev[e2.id]) =~= seg.map_values(
                    |e2: PayloadEntry| m.rev[e2.id],
                ).push(m.rev[me.id]));
            }
            k = k + 1;
        }
        proof {
            assert(page_of(m.entries, after_score) =~= m.entries.subrange(
                split as int,
                split + k,
            ));
        }
        (values, guids)
    }

    /// Take up to `n` bytes off the head entry.
    ///
    /// A locked or empty queue, or a request for no bytes, yields nothing
    /// and leaves the queue untouched — the caller emits a dummy chunk, so
    /// an observer cannot tell a locked queue from an idle sender.  A
    /// partial take rewrites the head with its tail and the rank counter
    /// decremented, returning the old rank as the data flag.  Taking the
    /// whole head removes the entry and its mappings and flags the bytes
    /// final.
    pub fn dequeue(&mut self, n: usize) -> (r: (Vec<u8>, usize, i32))
        requires
            old(self).inv(),
        ensures
            final(self).inv(),
            ({
                let m = old(self).model();
                let m2 = final(self).model();
                if m.locked || m.entries.len() == 0 || n == 0 {
                    &&& r.0@.len() == 0
                    &&& r.1 == 0
                    &&& r.2 == DUMMY_FLAG
                    &&& m2 == m
                } else if n < m.entries.first().bytes.len() {
                    &&& r.0@ == m.entries.first().bytes.take(n as int)
                    &&& r.1 == n
                    &&& r.2 as int == m.entries.first().rank
                    &&& m2 == (QueueModel {
                        entries: m.entries.update(
                            0,
                            PayloadEntry {
                                id: m.entries.first().id,
                                bytes: m.entries.first().bytes.skip(n as int),
                                rank: m.entries.first().rank - 1,
                            },
                        ),
                        ..m
                    })
                } else {
                    &&& r.0@ == m.entries.first().bytes
                    &&& r.1 == m.entries.first().bytes.len()
                    &&& r.2 == FINAL_FLAG
                    &&& m2 == (QueueModel {
                        entries: m.entries.drop_first(),
                        fwd: m.fwd.remove(m.rev[m.entries.first().id]),
                        rev: m.rev.remove(m.entries.first().id),
                        ..m
                    })
                }
            }),
    {
        let ghost m = self.model();
        if self.locked || self.entries.len() == 0 || n == 0 {
            return (Vec::new(), 0, DUMMY_FLAG);
        }
        let head_len = self.entries[0].payload.len();
        let head_id = self.entries[0].entry_id;
        proof {
            assert(m.entries.first() == self.entries@[0].model());
        }
        if n < head_len {
            // Take a prefix: rewrite the head with its tail, rank one lower.
            let e = self.entries.remove(0);
            let taken = crate::chunker::copy_range(&e.payload, 0, n);
            let tail = crate::chunker::copy_range(&e.payload, n, head_len);
            let new_head = StoredEntry {
                entry_id: e.entry_id,
                payload: tail,
                rank: e.rank - 1,
            };
            self.entries.insert(0, new_head);
            proof {
                let m2 = self.model();
                assert(m2.entries =~= m.entries.update(
                    0,
                    PayloadEntry {
                        id: m.entries.first().id,
                        bytes: m.entries.first().bytes.skip(n as int),
                        rank: m.entries.first().rank - 1,
                    },
                ));
                assert(m2 =~= (QueueModel {
                    entries: m2.entries,
                    ..m
                }));
                assert(entries_wf(m2.entries)) by {
                    assert(forall|i: int|
                        1 <= i < m2.entries.len() ==> m2.entries[i] == m.entries[i]);
                }
                assert(forall|i: int|
                    0 <= i < m2.entries.len() ==> (#[trigger] m2.entries[i]).id
                        == m.entries[i].id);
            }
            (taken, n, e.rank)
        } else {
            // Take the whole head: the entry and its mappings leave.
            proof {
                assert(m.rev.dom().contains(head_id));
            }
            self.drop_mappings(head_id);
            let e = self.entries.remove(0);
            proof {
                let m2 = self.model();
                assert(m2.entries =~= m.entries.drop_first());
                assert(m2 =~= (QueueModel {
                    entries: m.entries.drop_first(),
                    fwd: m.fwd.remove(m.rev[head_id]),
                    rev: m.rev.remove(head_id),
                    ..m
                }));
                assert(entries_wf(m2.entries)) by {
                    assert(forall|i: int|
                        0 <= i < m2.entries.len() ==> m2.entries[i] == m.entries[i + 1]);
                }
                assert(model_inv(m2)) by {
                    assert forall|i: int| 0 <= i < m2.entries.len() implies m2.rev.dom().contains(
                        (#[trigger] m2.entries[i]).id,
                    ) by {
                        assert(m2.entries[i] == m.entries[i + 1]);
                        assert(m.entries[i + 1].id != head_id) by {
                            assert(m.entries[0].id < m.entries[i + 1].id);
                        }
                    }
                    assert forall|g2: Seq<u8>| m2.fwd.dom().contains(g2) implies {
                        &&& m2.rev.dom().contains(#[trigger] m2.fwd[g2])
                        &&& m2.rev[m2.fwd[g2]] == g2
                        &&& 1 <= m2.fwd[g2] <= m2.counter
                    } by {
                        assert(m.fwd.dom().contains(g2) && g2 != m.rev[head_id]);
                        if m.fwd[g2] == head_id {
                            assert(m.rev[head_id] == g2);
                            assert(false);
                        }
                    }
                    assert forall|id2: u64| m2.rev.dom().contains(id2) implies {
                        &&& m2.fwd.dom().contains(#[trigger] m2.rev[id2])
                        &&& m2.fwd[m2.rev[id2]] == id2
                        &&& 1 <= id2 <= m2.counter
                    } by {
                        assert(m.rev.dom().contains(id2) && id2 != head_id);
                        if m.rev[id2] == m.rev[head_id] {
                            assert(m.fwd[m.rev[id2]] == id2 && m.fwd[m.rev[head_id]] == head_id);
                            assert(false);
                        }
                    }
                }
            }
            let len = e.payload.len();
            (e.payload, len, FINAL_FLAG)
        }
    }

    /// Look a guid up in the forward mapping.
    fn find_guid(&self, guid: &Vec<u8>) -> (r: Option<u64>)
        requires
            fwd_nodup(self.guid_to_id@),
        ensures
            r == (if self.model().fwd.dom().contains(guid@) {
                Some(self.model().fwd[guid@])
            } else {
                None::<u64>
            }),
    {
        let mut i: usize = 0;
        while i < self.guid_to_id.len()
            invariant
                0 <= i <= self.guid_to_id@.len(),
                fwd_nodup(self.guid_to_id@),
                forall|j: int| 0 <= j < i ==> (#[trigger] self.guid_to_id@[j]).0@ != guid@,
            decreases self.guid_to_id@.len() - i,
        {
            if bytes_eq(&self.guid_to_id[i].0, guid) {
                proof {
                    lemma_fwd_map_index(self.guid_to_id@, i as int);
                }
                return Some(self.guid_to_id[i].1);
            }
            i = i + 1;
        }
        proof {
            lemma_fwd_map_absent(self.guid_to_id@, guid@);
        }
        None
    }

    /// Look an identifier up in the reverse mapping.
    fn find_id(&self, id: u64) -> (r: Option<Vec<u8>>)
        requires
            rev_nodup(self.id_to_guid@),
        ensures
            match r {
                Some(g) => self.model().rev.dom().contains(id) && g@ == self.model().rev[id],
                None => !self.model().rev.dom().contains(id),
            },
    {
        let mut i: usize = 0;
        while i < self.id_to_guid.len()
            invariant
                0 <= i <= self.id_to_guid@.len(),
                rev_nodup(self.id_to_guid@),
                forall|j: int| 0 <= j < i ==> (#[trigger] self.id_to_guid@[j]).0 != id,
            decreases self.id_to_guid@.len() - i,
        {
            if self.id_to_guid[i].0 == id {
                proof {
                    lemma_rev_map_index(self.id_to_guid@, i as int);
                }
                let g = &self.id_to_guid[i].1;
                let copy = crate::chunker::copy_range(g, 0, g.len());
                proof {
                    assert(copy@ =~= g@);
                }
                return Some(copy);
            }
            i = i + 1;
        }
        proof {
            lemma_rev_map_absent(self.id_to_guid@, id);
        }
        None
    }
}

impl DeniableSendingBuffer for BufferQueue {
    open spec fn entries(&self) -> Seq<PayloadEntry> {
        self.model().entries
    }

    open spec fn blocked(&self) -> bool {
        self.model().locked
    }

    open spec fn ok(&self) -> bool {
        self.inv()
    }

    proof fn ok_implies_wf(&self) {
    }

    fn dequeue_bytes(&mut self, n: usize) -> (r: (Vec<u8>, usize, i32)) {
        self.dequeue(n)
    }
}

} // verus!
