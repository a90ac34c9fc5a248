//! Reassembling deniable payloads from chunks.
//!
//! Chunks are read in arrival order: dummies are discarded, data chunks are
//! buffered, and a final chunk closes a payload, whose bytes are the buffered
//! data chunks sorted by rank (`0` first, then `-1`, and so on) followed by
//! the final chunk's bytes.  Data chunks left without a final remain pending.

use vstd::prelude::*;

use crate::chunk::DenimChunk;
use crate::chunker::copy_range;

verus! {

/// The bytes of a chunk sequence, concatenated in order.
pub open spec fn flat_bytes(cs: Seq<DenimChunk>) -> Seq<u8>
    decreases cs.len(),
{
    if cs.len() == 0 {
        Seq::empty()
    } else {
        cs.first().chunk@ + flat_bytes(cs.drop_first())
    }
}

proof fn lemma_flat_push(cs: Seq<DenimChunk>, c: DenimChunk)
    ensures
        flat_bytes(cs.push(c)) =~= flat_bytes(cs) + c.chunk@,
    decreases cs.len(),
{
    assert(cs.push(c).len() == cs.len() + 1);
    if cs.len() == 0 {
        assert(cs.push(c).first() == c);
        assert(cs.push(c).drop_first() =~= Seq::<DenimChunk>::empty());
        assert(flat_bytes(Seq::<DenimChunk>::empty()) =~= Seq::<u8>::empty());
        assert(flat_bytes(cs.push(c)) == c.chunk@ + flat_bytes(cs.push(c).drop_first()));
    } else {
        assert(cs.push(c).first() == cs.first());
        assert(cs.push(c).drop_first() =~= cs.drop_first().push(c));
        lemma_flat_push(cs.drop_first(), c);
        assert(flat_bytes(cs.push(c)) == cs.first().chunk@ + flat_bytes(cs.drop_first().push(c)));
        assert(flat_bytes(cs) == cs.first().chunk@ + flat_bytes(cs.drop_first()));
    }
}

/// Insert a chunk into a rank-sorted sequence, after every chunk whose flag
/// is at least as large: a stable descending insertion.
pub open spec fn insert_sorted(s: Seq<DenimChunk>, c: DenimChunk) -> Seq<DenimChunk>
    decreases s.len(),
{
    if s.len() == 0 {
        seq![c]
    } else if s.last().flags >= c.flags {
        s.push(c)
    } else {
        insert_sorted(s.drop_last(), c).push(s.last())
    }
}

/// Stable insertion sort by descending flag, so rank `0` comes first.
pub open spec fn sort_desc(s: Seq<DenimChunk>) -> Seq<DenimChunk>
    decreases s.len(),
{
    if s.len() == 0 {
        Seq::empty()
    } else {
        insert_sorted(sort_desc(s.drop_last()), s.last())
    }
}

/// Where the insertion lands: just before the trailing run of strictly
/// smaller flags.
proof fn lemma_insert_sorted_at(s: Seq<DenimChunk>, c: DenimChunk, j: int)
    requires
        0 <= j <= s.len(),
        forall|i: int| j <= i < s.len() ==> (#[trigger] s[i]).flags < c.flags,
        j > 0 ==> s[j - 1].flags >= c.flags,
    ensures
        insert_sorted(s, c) =~= s.take(j) + seq![c] + s.skip(j),
    decreases s.len() - j,
{
    if j == s.len() {
        if s.len() == 0 {
            assert(insert_sorted(s, c) =~= seq![c]);
        } else {
            assert(s.last().flags >= c.flags);
            assert(s.take(j) =~= s);
            assert(s.skip(j) =~= Seq::<DenimChunk>::empty());
        }
    } else {
        assert(s.last().flags < c.flags);
        lemma_insert_sorted_at(s.drop_last(), c, j);
        assert(s.drop_last().take(j) =~= s.take(j));
        assert(insert_sorted(s.drop_last(), c).push(s.last()) =~= (s.take(j) + seq![c]
            + s.drop_last().skip(j)).push(s.last()));
        assert((s.take(j) + seq![c] + s.drop_last().skip(j)).push(s.last()) =~= s.take(j) + seq![c]
            + s.skip(j));
    }
}

/// State of rank-sorting reassembly: completed payload byte strings and the
/// data chunks, in arrival order, still awaiting a final chunk.
#[verifier::ext_equal]
pub ghost struct SortReassemblyState {
    pub done: Seq<Seq<u8>>,
    pub pending: Seq<DenimChunk>,
}

/// One reassembly step: discard a dummy, buffer a data chunk, or close a
/// payload from the rank-sorted buffered chunks and the final chunk's bytes.
pub open spec fn sorted_reasm_step(st: SortReassemblyState, c: DenimChunk) -> SortReassemblyState {
    if c.spec_is_dummy() {
        st
    } else if c.spec_is_final() {
        SortReassemblyState {
            done: st.done.push(flat_bytes(sort_desc(st.pending)) + c.chunk@),
            pending: Seq::empty(),
        }
    } else {
        SortReassemblyState { done: st.done, pending: st.pending.push(c) }
    }
}

/// Rank-sorting reassembly of a whole chunk sequence.
pub open spec fn sorted_reasm_run(st: SortReassemblyState, cs: Seq<DenimChunk>) -> SortReassemblyState
    decreases cs.len(),
{
    if cs.len() == 0 {
        st
    } else {
        sorted_reasm_run(sorted_reasm_step(st, cs.first()), cs.drop_first())
    }
}

/// A chunk that reassembly buffers: neither cover traffic nor a terminator.
pub open spec fn is_buffered(c: DenimChunk) -> bool {
    !c.spec_is_dummy() && !c.spec_is_final()
}

/// Reassembly over concatenated batches is reassembly batch by batch.
pub proof fn lemma_sorted_reasm_app(
    st: SortReassemblyState,
    a: Seq<DenimChunk>,
    b: Seq<DenimChunk>,
)
    ensures
        sorted_reasm_run(st, a + b) == sorted_reasm_run(sorted_reasm_run(st, a), b),
    decreases a.len(),
{
    if a.len() == 0 {
        assert(a + b =~= b);
    } else {
        assert((a + b).first() == a.first());
        assert((a + b).drop_first() =~= a.drop_first() + b);
        lemma_sorted_reasm_app(sorted_reasm_step(st, a.first()), a.drop_first(), b);
    }
}

/// Feeding only bufferable chunks extends the pending buffer in order and
/// completes nothing.
pub proof fn lemma_sorted_reasm_buffered(st: SortReassemblyState, cs: Seq<DenimChunk>)
    requires
        forall|i: int| 0 <= i < cs.len() ==> is_buffered(#[trigger] cs[i]),
    ensures
        sorted_reasm_run(st, cs) == (SortReassemblyState {
            done: st.done,
            pending: st.pending + cs,
        }),
    decreases cs.len(),
{
    if cs.len() == 0 {
        assert(st.pending + cs =~= st.pending);
    } else {
        assert(is_buffered(cs.first()));
        assert(forall|i: int|
            0 <= i < cs.drop_first().len() ==> is_buffered(#[trigger] cs.drop_first()[i]));
        lemma_sorted_reasm_buffered(sorted_reasm_step(st, cs.first()), cs.drop_first());
        assert(st.pending.push(cs.first()) + cs.drop_first() =~= st.pending + cs);
    }
}

/// The pending buffer only ever holds bufferable chunks.
pub proof fn lemma_sorted_pending_buffered(st: SortReassemblyState, cs: Seq<DenimChunk>)
    requires
        forall|i: int| 0 <= i < st.pending.len() ==> is_buffered(#[trigger] st.pending[i]),
    ensures
        forall|i: int|
            0 <= i < sorted_reasm_run(st, cs).pending.len() ==> is_buffered(
                #[trigger] sorted_reasm_run(st, cs).pending[i],
            ),
    decreases cs.len(),
{
    if cs.len() > 0 {
        let st2 = sorted_reasm_step(st, cs.first());
        assert(forall|i: int|
            0 <= i < st2.pending.len() ==> is_buffered(#[trigger] st2.pending[i])) by {
            if !cs.first().spec_is_dummy() && !cs.first().spec_is_final() {
                assert(forall|i: int|
                    0 <= i < st.pending.len() ==> st2.pending[i] == st.pending[i]);
                assert(st2.pending.last() == cs.first());
            }
        }
        lemma_sorted_pending_buffered(st2, cs.drop_first());
        assert(sorted_reasm_run(st, cs) == sorted_reasm_run(st2, cs.drop_first()));
    }
}

/// A pending buffer as well-formed emission leaves it: flags strictly
/// descending (rank order already), ending one above the next expected rank.
pub open spec fn pending_ok(p: Seq<DenimChunk>, expected: int) -> bool {
    &&& forall|i: int, j: int|
        0 <= i < j < p.len() ==> (#[trigger] p[i]).flags > (#[trigger] p[j]).flags
    &&& p.len() > 0 ==> p.last().flags == expected + 1
    &&& forall|i: int| 0 <= i < p.len() ==> is_buffered(#[trigger] p[i])
}

/// Sorting a strictly descending sequence changes nothing.
proof fn lemma_sort_desc_sorted_id(s: Seq<DenimChunk>)
    requires
        forall|i: int, j: int|
            0 <= i < j < s.len() ==> (#[trigger] s[i]).flags > (#[trigger] s[j]).flags,
    ensures
        sort_desc(s) =~= s,
    decreases s.len(),
{
    if s.len() > 0 {
        assert(forall|i: int, j: int|
            0 <= i < j < s.drop_last().len() ==> (#[trigger] s.drop_last()[i]).flags > (
            #[trigger] s.drop_last()[j]).flags);
        lemma_sort_desc_sorted_id(s.drop_last());
        if s.len() == 1 {
            assert(sort_desc(s) == insert_sorted(sort_desc(s.drop_last()), s.last()));
            assert(sort_desc(s.drop_last()) =~= Seq::<DenimChunk>::empty());
            assert(insert_sorted(Seq::<DenimChunk>::empty(), s.last()) =~= seq![s.last()]);
            assert(seq![s.last()] =~= s);
        } else {
            assert(s.drop_last().last().flags > s.last().flags);
            assert(insert_sorted(s.drop_last(), s.last()) == s.drop_last().push(s.last()));
            assert(s.drop_last().push(s.last()) =~= s);
        }
    }
}

/// On a well-formed stream, rank-sorting reassembly and in-order reassembly
/// complete the same payloads: data chunks arrive already in rank order, so
/// the sort is the identity. (law)
pub proof fn lemma_sorted_matches_inorder(
    ss: SortReassemblyState,
    ps: crate::chunker::ReassemblyState,
    cs: Seq<DenimChunk>,
    expected: int,
)
    requires
        crate::chunker::stream_wf_from(cs, expected),
        pending_ok(ss.pending, expected),
        ps.done == ss.done,
        ps.pending == flat_bytes(ss.pending),
    ensures
        sorted_reasm_run(ss, cs).done == crate::chunker::reasm_run(ps, cs).done,
        flat_bytes(sorted_reasm_run(ss, cs).pending) == crate::chunker::reasm_run(
            ps,
            cs,
        ).pending,
        pending_ok(
            sorted_reasm_run(ss, cs).pending,
            crate::chunker::stream_end_expected(cs, expected),
        ),
    decreases cs.len(),
{
    if cs.len() == 0 {
    } else {
        let c = cs.first();
        let ss2 = sorted_reasm_step(ss, c);
        let ps2 = crate::chunker::reasm_step(ps, c);
        if c.spec_is_dummy() {
            lemma_sorted_matches_inorder(ss, ps, cs.drop_first(), expected);
        } else if c.spec_is_final() {
            lemma_sort_desc_sorted_id(ss.pending);
            assert(ss2.done == ss.done.push(flat_bytes(ss.pending) + c.chunk@));
            assert(ps2.done == ps.done.push(ps.pending + c.chunk@));
            assert(pending_ok(ss2.pending, 0)) by {
                assert(ss2.pending =~= Seq::<DenimChunk>::empty());
            }
            assert(flat_bytes(ss2.pending) =~= Seq::<u8>::empty());
            lemma_sorted_matches_inorder(ss2, ps2, cs.drop_first(), 0);
        } else {
            assert(c.flags == expected);
            assert(ss2.pending == ss.pending.push(c));
            lemma_flat_push(ss.pending, c);
            assert(pending_ok(ss2.pending, expected - 1)) by {
                assert forall|i: int, j: int| 0 <= i < j < ss2.pending.len() implies (
                #[trigger] ss2.pending[i]).flags > (#[trigger] ss2.pending[j]).flags by {
                    if j + 1 < ss2.pending.len() {
                        assert(ss2.pending[i] == ss.pending[i] && ss2.pending[j]
                            == ss.pending[j]);
                    } else {
                        assert(ss2.pending[j] == c);
                        assert(ss2.pending[i] == ss.pending[i]);
                        if i + 1 < ss.pending.len() {
                            assert(ss.pending[i].flags > ss.pending.last().flags);
                        }
                    }
                }
                assert(ss2.pending.last() == c);
                assert forall|i: int| 0 <= i < ss2.pending.len() implies is_buffered(
                    #[trigger] ss2.pending[i],
                ) by {
                    if i + 1 < ss2.pending.len() {
                        assert(ss2.pending[i] == ss.pending[i]);
                    } else {
                        assert(ss2.pending[i] == c);
                    }
                }
            }
            lemma_sorted_matches_inorder(ss2, ps2, cs.drop_first(), expected - 1);
        }
    }
}

/// Exec-level round trip: chunks that drain a queue to empty, fed to the
/// rank-sorting reassembler, complete exactly the queued payload byte
/// strings, in order, with no bytes left pending. (law)
pub proof fn lemma_reassemble_emission(
    es: Seq<crate::outgoing::PayloadEntry>,
    cs: Seq<DenimChunk>,
)
    requires
        crate::outgoing::entries_wf(es),
        crate::chunker::emission_ok(es, Seq::<crate::outgoing::PayloadEntry>::empty(), cs),
    ensures
        sorted_reasm_run(
            SortReassemblyState { done: Seq::empty(), pending: Seq::empty() },
            cs,
        ).done =~= es.map_values(|e: crate::outgoing::PayloadEntry| e.bytes),
        flat_bytes(
            sorted_reasm_run(
                SortReassemblyState { done: Seq::empty(), pending: Seq::empty() },
                cs,
            ).pending,
        ) =~= Seq::<u8>::empty(),
{
    let ss0 = SortReassemblyState { done: Seq::empty(), pending: Seq::empty() };
    let ps0 = crate::chunker::ReassemblyState { done: Seq::empty(), pending: Seq::empty() };
    assert(flat_bytes(ss0.pending) =~= Seq::<u8>::empty());
    lemma_sorted_matches_inorder(ss0, ps0, cs, crate::chunker::head_rank(es));
    crate::chunker::lemma_emission_round_trip(es, cs);
}

/// Sort chunks by descending flag, keeping the arrival order of equal flags.
pub fn sorted_by_rank(v: Vec<DenimChunk>) -> (out: Vec<DenimChunk>)
    ensures
        out@ == sort_desc(v@),
{
    let ghost v0 = v@;
    let mut rest = v;
    let mut out: Vec<DenimChunk> = Vec::new();
    while rest.len() > 0
        invariant
            rest@.len() <= v0.len(),
            rest@ =~= v0.skip(v0.len() - rest@.len()),
            out@ == sort_desc(v0.take(v0.len() - rest@.len())),
        decreases rest@.len(),
    {
        let ghost m = v0.len() - rest@.len();
        let ghost rb = rest@;
        let c = rest.remove(0);
        proof {
            assert(rb == v0.skip(m));
            assert(c == rb[0] && rb[0] == v0.skip(m)[0] && v0.skip(m)[0] == v0[m]);
            assert(rest@ =~= v0.skip(m + 1)) by {
                assert(rest@ == rb.remove(0));
            }
        }
        let mut j: usize = out.len();
        while j > 0 && out[j - 1].flags < c.flags
            invariant
                0 <= j <= out@.len(),
                forall|i: int| j <= i < out@.len() ==> (#[trigger] out@[i]).flags < c.flags,
            decreases j,
        {
            j = j - 1;
        }
        proof {
            lemma_insert_sorted_at(out@, c, j as int);
            assert(v0.take(m + 1).drop_last() =~= v0.take(m));
            assert(v0.take(m + 1).last() == v0[m]);
            assert(out@.insert(j as int, c) =~= out@.take(j as int) + seq![c] + out@.skip(
                j as int,
            ));
        }
        out.insert(j, c);
    }
    proof {
        assert(v0.take(v0.len() as int) =~= v0);
    }
    out
}

/// The concatenated bytes of a chunk list.
pub fn flat_of(cs: &Vec<DenimChunk>) -> (r: Vec<u8>)
    ensures
        r@ == flat_bytes(cs@),
{
    let mut r: Vec<u8> = Vec::new();
    let mut i: usize = 0;
    while i < cs.len()
        invariant
            0 <= i <= cs@.len(),
            r@ == flat_bytes(cs@.take(i as int)),
        decreases cs@.len() - i,
    {
        proof {
            assert(cs@.take(i + 1) =~= cs@.take(i as int).push(cs@[i as int]));
            lemma_flat_push(cs@.take(i as int), cs@[i as int]);
        }
        let more = copy_range(&cs[i].chunk, 0, cs[i].chunk.len());
        let mut k: usize = 0;
        proof {
            assert(more@ =~= cs@[i as int].chunk@);
        }
        while k < more.len()
            invariant
                0 <= k <= more@.len(),
                r@ == flat_bytes(cs@.take(i as int)) + more@.take(k as int),
                more@ == cs@[i as int].chunk@,
                i < cs@.len(),
            decreases more@.len() - k,
        {
            proof {
                assert(more@.take(k + 1) =~= more@.take(k as int).push(more@[k as int]));
                assert((flat_bytes(cs@.take(i as int)) + more@.take(k as int)).push(more@[k as int])
                    =~= flat_bytes(cs@.take(i as int)) + more@.take(k + 1));
            }
            r.push(more[k]);
            k = k + 1;
        }
        proof {
            assert(more@.take(more@.len() as int) =~= more@);
        }
        i = i + 1;
    }
    proof {
        assert(cs@.take(cs@.len() as int) =~= cs@);
    }
    r
}

/// Reassemble a chunk sequence: every final chunk closes one payload made of
/// the buffered data chunks sorted by rank followed by the final bytes;
/// dummies are dropped; data chunks with no final yet are handed back in
/// arrival order.
pub fn reassemble(chunks: Vec<DenimChunk>) -> (r: (Vec<Vec<u8>>, Vec<DenimChunk>))
    ensures
        ({
            let st = sorted_reasm_run(
                SortReassemblyState { done: Seq::empty(), pending: Seq::empty() },
                chunks@,
            );
            &&& r.0@.map_values(|p: Vec<u8>| p@) == st.done
            &&& r.1@ == st.pending
        }),
{
    let ghost cs0 = chunks@;
    let ghost st0 = SortReassemblyState { done: Seq::empty(), pending: Seq::empty() };
    let mut rest = chunks;
    let mut done: Vec<Vec<u8>> = Vec::new();
    let mut pending: Vec<DenimChunk> = Vec::new();
    proof {
        assert(done@.map_values(|p: Vec<u8>| p@) =~= Seq::<Seq<u8>>::empty());
    }
    while rest.len() > 0
        invariant
            sorted_reasm_run(st0, cs0) == sorted_reasm_run(
                SortReassemblyState {
                    done: done@.map_values(|p: Vec<u8>| p@),
                    pending: pending@,
                },
                rest@,
            ),
        decreases rest@.len(),
    {
        let ghost rest_before = rest@;
        let ghost cur = SortReassemblyState {
            done: done@.map_values(|p: Vec<u8>| p@),
            pending: pending@,
        };
        let c = rest.remove(0);
        proof {
            assert(c == rest_before.first());
            assert(rest@ =~= rest_before.drop_first());
            assert(sorted_reasm_run(cur, rest_before) == sorted_reasm_run(
                sorted_reasm_step(cur, c),
                rest_before.drop_first(),
            ));
        }
        if c.is_dummy() {
            proof {
                assert(sorted_reasm_step(cur, c) == cur);
            }
        } else if c.is_final() {
            let sorted = sorted_by_rank(pending);
            let mut payload = flat_of(&sorted);
            let mut k: usize = 0;
            let ghost base = payload@;
            while k < c.chunk.len()
                invariant
                    0 <= k <= c.chunk@.len(),
                    payload@ == base + c.chunk@.take(k as int),
                decreases c.chunk@.len() - k,
            {
                proof {
                    assert(c.chunk@.take(k + 1) =~= c.chunk@.take(k as int).push(
                        c.chunk@[k as int],
                    ));
                    assert((base + c.chunk@.take(k as int)).push(c.chunk@[k as int]) =~= base
                        + c.chunk@.take(k + 1));
                }
                payload.push(c.chunk[k]);
                k = k + 1;
            }
            proof {
                assert(c.chunk@.take(c.chunk@.len() as int) =~= c.chunk@);
                assert(payload@ =~= flat_bytes(sort_desc(cur.pending)) + c.chunk@);
            }
            let ghost payload_view = payload@;
            done.push(payload);
            pending = Vec::new();
            proof {
                assert(done@.map_values(|p: Vec<u8>| p@) =~= cur.done.push(
                    flat_bytes(sort_desc(cur.pending)) + c.chunk@,
                ));
                assert(sorted_reasm_step(cur, c) == (SortReassemblyState {
                    done: done@.map_values(|p: Vec<u8>| p@),
                    pending: pending@,
                }));
            }
        } else {
            pending.push(c);
            proof {
                assert(sorted_reasm_step(cur, c) == (SortReassemblyState {
                    done: done@.map_values(|p: Vec<u8>| p@),
                    pending: pending@,
                }));
            }
        }
    }
    proof {
        assert(rest@.len() == 0);
    }
    (done, pending)
}

} // verus!
