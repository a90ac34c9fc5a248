//! Slicing deniable payload bytes into chunks that exactly fill the slack of
//! an overt packet.
//!
//! The chunker drains an outgoing buffer byte by byte.  Given an overt
//! payload of `s` bytes and a ratio `q`, the appendix budget is
//! `ceil(s * q)`; the chunker emits chunks until the remaining free space is
//! below the per-chunk overhead, filling with zeroed dummy chunks whenever
//! the buffer hands out nothing, and reports the residual free space so the
//! caller can pad with ballast.

use vstd::prelude::*;

use crate::chunk::{emitted_bytes, DenimChunk, DUMMY_FLAG};
use crate::codec::{
    chunk_encoded_len, chunks_encoded_len, lemma_chunks_encoded_len_push, EMPTY_DENIMCHUNK_SIZE,
    EMPTY_VEC_SIZE,
};
use crate::outgoing::{buffered_bytes, entries_wf, DeniableSendingBuffer, PayloadEntry};
use crate::ratio::{QRatio, MAX_OVERT_SIZE};

verus! {

/// The rank the next data chunk cut from the queue must carry: the head
/// entry's rank, or `0` when the queue is empty and the next entry would be
/// fresh.
pub open spec fn head_rank(es: Seq<PayloadEntry>) -> int {
    if es.len() > 0 {
        es.first().rank
    } else {
        0
    }
}

/// How one queue state can follow from another by draining from the head:
/// the first `k` entries are gone, the next may have lost a prefix of its
/// bytes, and everything behind it is untouched.
pub open spec fn consumption_shape(es: Seq<PayloadEntry>, es2: Seq<PayloadEntry>) -> bool {
    let k = es.len() - es2.len();
    &&& 0 <= k <= es.len()
    &&& (es2.len() > 0 ==> {
        let h = es[k];
        let h2 = es2.first();
        &&& h2.id == h.id
        &&& 1 <= h2.bytes.len() <= h.bytes.len()
        &&& h2.bytes == h.bytes.skip(h.bytes.len() - h2.bytes.len())
        &&& h2.rank <= h.rank
        &&& es2.drop_first() == es.skip(k).drop_first()
    })
}

/// A chunk stream is well formed when, read in order, its data chunks carry
/// the expected rank, which starts at `expected`, drops by one after every
/// data chunk, and resets to `0` after every final chunk.
pub open spec fn stream_wf_from(cs: Seq<DenimChunk>, expected: int) -> bool
    decreases cs.len(),
{
    if cs.len() == 0 {
        true
    } else {
        let c = cs.first();
        if c.spec_is_dummy() {
            stream_wf_from(cs.drop_first(), expected)
        } else if c.spec_is_final() {
            stream_wf_from(cs.drop_first(), 0)
        } else {
            c.flags == expected && stream_wf_from(cs.drop_first(), expected - 1)
        }
    }
}

/// The expected rank after a chunk stream has been read.
pub open spec fn stream_end_expected(cs: Seq<DenimChunk>, expected: int) -> int
    decreases cs.len(),
{
    if cs.len() == 0 {
        expected
    } else {
        let c = cs.first();
        if c.spec_is_dummy() {
            stream_end_expected(cs.drop_first(), expected)
        } else if c.spec_is_final() {
            stream_end_expected(cs.drop_first(), 0)
        } else {
            stream_end_expected(cs.drop_first(), c.flags - 1)
        }
    }
}

/// Everything one chunker run guarantees about what it emitted: the buffer
/// was drained from the head; the non-dummy chunks carry exactly the bytes
/// that left it, in order, zero-filled where dummy; ranks continue the
/// head's rank downward and reset after final chunks; and in-order
/// reassembly of the emitted chunks completes exactly the consumed entries.
pub open spec fn emission_ok(
    es: Seq<PayloadEntry>,
    es2: Seq<PayloadEntry>,
    cs: Seq<DenimChunk>,
) -> bool {
    &&& consumption_shape(es, es2)
    &&& emitted_bytes(cs) + buffered_bytes(es2) == buffered_bytes(es)
    &&& forall|i: int|
        0 <= i < cs.len() && (#[trigger] cs[i]).spec_is_dummy() ==> forall|j: int|
            0 <= j < cs[i].chunk@.len() ==> cs[i].chunk@[j] == 0
    &&& stream_wf_from(cs, head_rank(es))
    &&& stream_end_expected(cs, head_rank(es)) == head_rank(es2)
    &&& forall|st: ReassemblyState|
        #[trigger] reasm_run(st, cs) == (ReassemblyState {
            done: st.done + consumed_payloads(st.pending, es, es.len() - es2.len()),
            pending: reasm_pending(st.pending, es, es2),
        })
}

/// State of in-order reassembly: the payloads completed so far and the bytes
/// of the payload still awaiting its final chunk.
#[verifier::ext_equal]
pub ghost struct ReassemblyState {
    pub done: Seq<Seq<u8>>,
    pub pending: Seq<u8>,
}

/// One in-order reassembly step: dummies are discarded, data bytes extend the
/// pending payload, and a final chunk completes it.
pub open spec fn reasm_step(st: ReassemblyState, c: DenimChunk) -> ReassemblyState {
    if c.spec_is_dummy() {
        st
    } else if c.spec_is_final() {
        ReassemblyState { done: st.done.push(st.pending + c.chunk@), pending: Seq::empty() }
    } else {
        ReassemblyState { done: st.done, pending: st.pending + c.chunk@ }
    }
}

/// In-order reassembly of a whole chunk stream.
pub open spec fn reasm_run(st: ReassemblyState, cs: Seq<DenimChunk>) -> ReassemblyState
    decreases cs.len(),
{
    if cs.len() == 0 {
        st
    } else {
        reasm_run(reasm_step(st, cs.first()), cs.drop_first())
    }
}

/// The payloads completed by consuming the first `k` entries of `es`, given
/// that `pending0` bytes of the head entry had been emitted earlier.
pub open spec fn consumed_payloads(pending0: Seq<u8>, es: Seq<PayloadEntry>, k: int) -> Seq<
    Seq<u8>,
> {
    Seq::new(
        k as nat,
        |i: int|
            if i == 0 {
                pending0 + es[0].bytes
            } else {
                es[i].bytes
            },
    )
}

/// The pending bytes after draining `es` down to `es2`: what was already
/// pending if no entry completed, plus the prefix taken from the now-partial
/// head.
pub open spec fn reasm_pending(
    pending0: Seq<u8>,
    es: Seq<PayloadEntry>,
    es2: Seq<PayloadEntry>,
) -> Seq<u8> {
    let k = es.len() - es2.len();
    let base = if k == 0 {
        pending0
    } else {
        Seq::<u8>::empty()
    };
    if es2.len() > 0 {
        base + es[k].bytes.take(es[k].bytes.len() - es2.first().bytes.len())
    } else {
        base
    }
}

/// Splitting a sequence at `c` and again `n` further along concatenates back
/// together.
proof fn lemma_take_split<A>(s: Seq<A>, c: int, n: int)
    requires
        0 <= c,
        0 <= n,
        c + n <= s.len(),
    ensures
        s.take(c + n) =~= s.take(c) + s.skip(c).take(n),
{
}

/// `emitted_bytes` over a snoc: a trailing dummy adds nothing, any other
/// trailing chunk adds its payload.
proof fn lemma_emitted_push(cs: Seq<DenimChunk>, c: DenimChunk)
    ensures
        c.spec_is_dummy() ==> emitted_bytes(cs.push(c)) =~= emitted_bytes(cs),
        !c.spec_is_dummy() ==> emitted_bytes(cs.push(c)) =~= emitted_bytes(cs) + c.chunk@,
    decreases cs.len(),
{
    assert(cs.push(c).len() == cs.len() + 1);
    if cs.len() == 0 {
        assert(cs.push(c).first() == c);
        assert(cs.push(c).drop_first() =~= Seq::<DenimChunk>::empty());
        assert(emitted_bytes(Seq::<DenimChunk>::empty()) =~= Seq::<u8>::empty());
    } else {
        assert(cs.push(c).first() == cs.first());
        assert(cs.push(c).drop_first() =~= cs.drop_first().push(c));
        lemma_emitted_push(cs.drop_first(), c);
    }
}

/// `reasm_run` over a snoc is a run followed by one step.
proof fn lemma_reasm_push(st: ReassemblyState, cs: Seq<DenimChunk>, c: DenimChunk)
    ensures
        reasm_run(st, cs.push(c)) == reasm_step(reasm_run(st, cs), c),
    decreases cs.len(),
{
    assert(cs.push(c).len() == cs.len() + 1);
    if cs.len() == 0 {
        assert(cs.push(c).first() == c);
        assert(cs.push(c).drop_first() =~= Seq::<DenimChunk>::empty());
        assert(forall|s: ReassemblyState|
            #[trigger] reasm_run(s, Seq::<DenimChunk>::empty()) == s);
        assert(reasm_run(st, cs.push(c)) == reasm_run(reasm_step(st, c), cs.push(c).drop_first()));
        assert(reasm_run(reasm_step(st, c), cs.push(c).drop_first()) == reasm_step(st, c));
        assert(reasm_run(st, cs) == st);
    } else {
        assert(cs.push(c).first() == cs.first());
        assert(cs.push(c).drop_first() =~= cs.drop_first().push(c));
        lemma_reasm_push(reasm_step(st, cs.first()), cs.drop_first(), c);
        assert(reasm_run(st, cs.push(c)) == reasm_run(
            reasm_step(st, cs.first()),
            cs.drop_first().push(c),
        ));
        assert(reasm_run(st, cs) == reasm_run(reasm_step(st, cs.first()), cs.drop_first()));
    }
}

/// Stream well-formedness and the end rank over a snoc.
proof fn lemma_stream_push(cs: Seq<DenimChunk>, c: DenimChunk, expected: int)
    ensures
        stream_end_expected(cs.push(c), expected) == (if c.spec_is_dummy() {
            stream_end_expected(cs, expected)
        } else if c.spec_is_final() {
            0int
        } else {
            c.flags - 1
        }),
        stream_wf_from(cs.push(c), expected) <==> (stream_wf_from(cs, expected) && (
        c.spec_is_dummy() || c.spec_is_final() || c.flags == stream_end_expected(cs, expected))),
    decreases cs.len(),
{
    assert(cs.push(c).len() == cs.len() + 1);
    if cs.len() == 0 {
        assert(cs.push(c).first() == c);
        assert(cs.push(c).drop_first() =~= Seq::<DenimChunk>::empty());
        assert(forall|e: int|
            #[trigger] stream_end_expected(Seq::<DenimChunk>::empty(), e) == e);
        assert(forall|e: int| #[trigger] stream_wf_from(Seq::<DenimChunk>::empty(), e));
        if c.spec_is_dummy() {
            assert(stream_end_expected(cs.push(c), expected) == stream_end_expected(
                cs.push(c).drop_first(),
                expected,
            ));
            assert(stream_wf_from(cs.push(c), expected) == stream_wf_from(
                cs.push(c).drop_first(),
                expected,
            ));
        } else if c.spec_is_final() {
            assert(stream_end_expected(cs.push(c), expected) == stream_end_expected(
                cs.push(c).drop_first(),
                0,
            ));
            assert(stream_wf_from(cs.push(c), expected) == stream_wf_from(
                cs.push(c).drop_first(),
                0,
            ));
        } else {
            assert(stream_end_expected(cs.push(c), expected) == stream_end_expected(
                cs.push(c).drop_first(),
                c.flags - 1,
            ));
            assert(stream_wf_from(cs.push(c), expected) == (c.flags == expected
                && stream_wf_from(cs.push(c).drop_first(), c.flags - 1)));
        }
        assert(stream_end_expected(cs, expected) == expected);
        assert(stream_wf_from(cs, expected));
    } else {
        assert(cs.push(c).first() == cs.first());
        assert(cs.push(c).drop_first() =~= cs.drop_first().push(c));
        let e2 = if cs.first().spec_is_dummy() {
            expected
        } else if cs.first().spec_is_final() {
            0int
        } else {
            cs.first().flags - 1
        };
        lemma_stream_push(cs.drop_first(), c, e2);
        assert(stream_end_expected(cs.push(c), expected) == stream_end_expected(
            cs.drop_first().push(c),
            e2,
        ));
        assert(stream_end_expected(cs, expected) == stream_end_expected(cs.drop_first(), e2));
        if cs.first().spec_is_dummy() || cs.first().spec_is_final() {
            assert(stream_wf_from(cs.push(c), expected) == stream_wf_from(
                cs.drop_first().push(c),
                e2,
            ));
            assert(stream_wf_from(cs, expected) == stream_wf_from(cs.drop_first(), e2));
        } else {
            assert(stream_wf_from(cs.push(c), expected) == (cs.first().flags == expected
                && stream_wf_from(cs.drop_first().push(c), e2)));
            assert(stream_wf_from(cs, expected) == (cs.first().flags == expected
                && stream_wf_from(cs.drop_first(), e2)));
        }
    }
}

/// In-order reassembly over concatenated streams runs batch by batch.
pub proof fn lemma_reasm_app(st: ReassemblyState, a: Seq<DenimChunk>, b: Seq<DenimChunk>)
    ensures
        reasm_run(st, a + b) == reasm_run(reasm_run(st, a), b),
    decreases a.len(),
{
    if a.len() == 0 {
        assert(a + b =~= b);
    } else {
        assert((a + b).first() == a.first());
        assert((a + b).drop_first() =~= a.drop_first() + b);
        lemma_reasm_app(reasm_step(st, a.first()), a.drop_first(), b);
    }
}

/// Emitted bytes over concatenated streams concatenate.
pub proof fn lemma_emitted_app(a: Seq<DenimChunk>, b: Seq<DenimChunk>)
    ensures
        emitted_bytes(a + b) =~= emitted_bytes(a) + emitted_bytes(b),
    decreases a.len(),
{
    if a.len() == 0 {
        assert(a + b =~= b);
        assert(emitted_bytes(a) =~= Seq::<u8>::empty());
    } else {
        assert((a + b).first() == a.first());
        assert((a + b).drop_first() =~= a.drop_first() + b);
        lemma_emitted_app(a.drop_first(), b);
        if !a.first().spec_is_dummy() {
            assert(a.first().chunk@ + (emitted_bytes(a.drop_first()) + emitted_bytes(b)) =~= (
            a.first().chunk@ + emitted_bytes(a.drop_first())) + emitted_bytes(b));
        }
    }
}

/// Stream well-formedness and the end rank over concatenated streams.
pub proof fn lemma_stream_app(a: Seq<DenimChunk>, b: Seq<DenimChunk>, e: int)
    ensures
        stream_end_expected(a + b, e) == stream_end_expected(b, stream_end_expected(a, e)),
        stream_wf_from(a + b, e) <==> (stream_wf_from(a, e) && stream_wf_from(
            b,
            stream_end_expected(a, e),
        )),
    decreases a.len(),
{
    if a.len() == 0 {
        assert(a + b =~= b);
    } else {
        assert((a + b).first() == a.first());
        assert((a + b).drop_first() =~= a.drop_first() + b);
        let e2 = if a.first().spec_is_dummy() {
            e
        } else if a.first().spec_is_final() {
            0int
        } else {
            a.first().flags - 1
        };
        lemma_stream_app(a.drop_first(), b, e2);
    }
}

/// Along a run of data chunks, the rank steps down by one from the start.
proof fn lemma_data_prefix_ranks(cs: Seq<DenimChunk>, e: int, j: int)
    requires
        stream_wf_from(cs, e),
        0 <= j <= cs.len(),
        forall|i: int| 0 <= i < j ==> (#[trigger] cs[i]).spec_is_data(),
    ensures
        forall|i: int| 0 <= i < j ==> (#[trigger] cs[i]).flags == e - i,
    decreases j,
{
    if j > 0 {
        assert(cs.first().spec_is_data());
        assert(!cs.first().spec_is_dummy() && !cs.first().spec_is_final());
        assert(cs.first().flags == e);
        assert(forall|i: int|
            0 <= i < j - 1 ==> (#[trigger] cs.drop_first()[i]) == cs[i + 1]);
        lemma_data_prefix_ranks(cs.drop_first(), e - 1, j - 1);
        assert forall|i: int| 0 <= i < j implies (#[trigger] cs[i]).flags == e - i by {
            if i > 0 {
                assert(cs.drop_first()[i - 1].flags == (e - 1) - (i - 1));
            }
        }
    }
}

/// One fresh payload split into data chunks and a final chunk carries the
/// ranks `0, -1, ...` in order, and the final chunk terminates it. (law)
pub proof fn lemma_rank_determinism(cs: Seq<DenimChunk>, k: int)
    requires
        stream_wf_from(cs, 0),
        0 <= k,
        cs.len() == k + 1,
        forall|i: int| 0 <= i < k ==> (#[trigger] cs[i]).spec_is_data(),
        cs[k].spec_is_final(),
    ensures
        forall|i: int| 0 <= i < k ==> (#[trigger] cs[i]).flags == -i,
{
    lemma_data_prefix_ranks(cs, 0, k);
}

/// Two emissions in a row are one emission: what the second call's chunks
/// reassemble continues exactly where the first call's left off.
pub proof fn lemma_emission_compose(
    es0: Seq<PayloadEntry>,
    es1: Seq<PayloadEntry>,
    es2: Seq<PayloadEntry>,
    cs1: Seq<DenimChunk>,
    cs2: Seq<DenimChunk>,
)
    requires
        entries_wf(es0),
        emission_ok(es0, es1, cs1),
        emission_ok(es1, es2, cs2),
    ensures
        emission_ok(es0, es2, cs1 + cs2),
    decreases 0int,
{
    let k1 = es0.len() - es1.len();
    let k2 = es1.len() - es2.len();
    let k = k1 + k2;
    let cs = cs1 + cs2;
    // The queue states relate by head-first consumption.
    assert forall|j: int| 1 <= j < es1.len() implies es1[j] == es0[k1 + j] by {
        assert(es1.drop_first()[j - 1] == es0.skip(k1).drop_first()[j - 1]);
        assert(es0.skip(k1).drop_first()[j - 1] == es0[k1 + j]);
    }
    assert(consumption_shape(es0, es2)) by {
        if es2.len() > 0 {
            let h0 = es0[k];
            let h1 = es1[k2];
            let h2 = es2.first();
            if k2 == 0 {
                assert(h1 == es1.first());
                let c1 = h0.bytes.len() - h1.bytes.len();
                let c2 = h1.bytes.len() - h2.bytes.len();
                assert(h2.bytes =~= h0.bytes.skip(c1 + c2)) by {
                    assert(h1.bytes == h0.bytes.skip(c1));
                    assert(h2.bytes == h1.bytes.skip(c2));
                    assert(h0.bytes.skip(c1).skip(c2) =~= h0.bytes.skip(c1 + c2));
                }
                assert(es2.drop_first() =~= es0.skip(k).drop_first()) by {
                    assert(es2.drop_first() =~= es1.skip(0).drop_first());
                    assert(es1.skip(0) =~= es1);
                    assert(es1.drop_first() =~= es0.skip(k1).drop_first());
                    assert(es0.skip(k1) =~= es0.skip(k));
                }
            } else {
                assert(h1 == es0[k1 + k2]);
                assert(h2.bytes == h1.bytes.skip(h1.bytes.len() - h2.bytes.len()));
                assert(es2.drop_first() =~= es0.skip(k).drop_first()) by {
                    assert(es2.drop_first() =~= es1.skip(k2).drop_first());
                    assert(forall|j: int|
                        0 <= j < es1.skip(k2).drop_first().len() ==> es1.skip(k2).drop_first()[j]
                            == es1[k2 + 1 + j]);
                    assert(forall|j: int|
                        0 <= j < es0.skip(k).drop_first().len() ==> es0.skip(k).drop_first()[j]
                            == es0[k + 1 + j]);
                }
            }
        } else {
        }
    }
    // Byte streams concatenate.
    lemma_emitted_app(cs1, cs2);
    assert(emitted_bytes(cs) + buffered_bytes(es2) =~= buffered_bytes(es0)) by {
        assert((emitted_bytes(cs1) + emitted_bytes(cs2)) + buffered_bytes(es2)
            =~= emitted_bytes(cs1) + (emitted_bytes(cs2) + buffered_bytes(es2)));
    }
    // Dummy chunks stay zero-filled.
    assert forall|i: int|
        0 <= i < cs.len() && (#[trigger] cs[i]).spec_is_dummy() implies forall|j: int|
        0 <= j < cs[i].chunk@.len() ==> cs[i].chunk@[j] == 0 by {
        if i < cs1.len() {
            assert(cs[i] == cs1[i]);
        } else {
            assert(cs[i] == cs2[i - cs1.len()]);
        }
    }
    // Ranks chain through the boundary.
    lemma_stream_app(cs1, cs2, head_rank(es0));
    // Reassembly continues where it left off.
    assert forall|st: ReassemblyState|
        #[trigger] reasm_run(st, cs) == (ReassemblyState {
            done: st.done + consumed_payloads(st.pending, es0, k),
            pending: reasm_pending(st.pending, es0, es2),
        }) by {
        lemma_reasm_app(st, cs1, cs2);
        let st1 = reasm_run(st, cs1);
        let p1 = reasm_pending(st.pending, es0, es1);
        assert(st1.done == st.done + consumed_payloads(st.pending, es0, k1));
        assert(st1.pending == p1);
        assert(reasm_run(st1, cs2) == (ReassemblyState {
            done: st1.done + consumed_payloads(p1, es1, k2),
            pending: reasm_pending(p1, es1, es2),
        }));
        assert(st1.done + consumed_payloads(p1, es1, k2) =~= st.done + consumed_payloads(
            st.pending,
            es0,
            k,
        )) by {
            assert forall|i: int| 0 <= i < k implies consumed_payloads(st.pending, es0, k)[i] == (
            if i < k1 {
                consumed_payloads(st.pending, es0, k1)[i]
            } else {
                consumed_payloads(p1, es1, k2)[i - k1]
            }) by {
                if i >= k1 {
                    if i - k1 == 0 {
                        let h0 = es0[k1];
                        assert(es1.len() > 0);
                        let h1 = es1.first();
                        let c1 = h0.bytes.len() - h1.bytes.len();
                        let base: Seq<u8> = if k1 == 0 {
                            st.pending
                        } else {
                            Seq::empty()
                        };
                        assert(p1 =~= base + h0.bytes.take(c1));
                        assert(p1 + h1.bytes =~= base + h0.bytes) by {
                            assert(h1.bytes == h0.bytes.skip(c1));
                            assert(h0.bytes.take(c1) + h0.bytes.skip(c1) =~= h0.bytes);
                            assert((base + h0.bytes.take(c1)) + h0.bytes.skip(c1) =~= base + (
                            h0.bytes.take(c1) + h0.bytes.skip(c1)));
                        }
                    } else {
                        assert(es1[i - k1] == es0[i]);
                    }
                }
            }
        }
        assert(reasm_pending(p1, es1, es2) =~= reasm_pending(st.pending, es0, es2)) by {
            if es2.len() > 0 {
                let h0 = es0[k];
                let h2 = es2.first();
                if k2 == 0 {
                    assert(es1.len() > 0);
                    let h1 = es1.first();
                    let c1 = h0.bytes.len() - h1.bytes.len();
                    let c2 = h1.bytes.len() - h2.bytes.len();
                    let base0: Seq<u8> = if k1 == 0 {
                        st.pending
                    } else {
                        Seq::empty()
                    };
                    assert(p1 =~= base0 + h0.bytes.take(c1));
                    assert(reasm_pending(p1, es1, es2) =~= p1 + h1.bytes.take(c2));
                    assert(p1 + h1.bytes.take(c2) =~= base0 + h0.bytes.take(c1 + c2)) by {
                        assert(h1.bytes == h0.bytes.skip(c1));
                        assert(h0.bytes.take(c1) + h0.bytes.skip(c1).take(c2) =~= h0.bytes.take(
                            c1 + c2,
                        ));
                        assert((base0 + h0.bytes.take(c1)) + h0.bytes.skip(c1).take(c2) =~= base0
                            + (h0.bytes.take(c1) + h0.bytes.skip(c1).take(c2)));
                    }
                    assert(reasm_pending(st.pending, es0, es2) =~= base0 + h0.bytes.take(
                        c1 + c2,
                    ));
                } else {
                    assert(es1[k2] == es0[k]);
                    let base: Seq<u8> = Seq::empty();
                    assert(reasm_pending(p1, es1, es2) =~= base + es1[k2].bytes.take(
                        es1[k2].bytes.len() - h2.bytes.len(),
                    ));
                }
            } else {
                if k2 == 0 {
                    assert(es1.len() == 0);
                    if k1 == 0 {
                        assert(es0.len() == 0);
                        assert(p1 =~= st.pending);
                    } else {
                        assert(p1 =~= Seq::<u8>::empty());
                    }
                }
            }
        }
    }
    assert(stream_end_expected(cs, head_rank(es0)) == head_rank(es2));
    assert(stream_wf_from(cs, head_rank(es0)));
}

/// Draining a queue to empty and reassembling, in order, yields exactly the
/// queued payload byte strings, in order, with nothing pending. (law)
pub proof fn lemma_emission_round_trip(es: Seq<PayloadEntry>, cs: Seq<DenimChunk>)
    requires
        entries_wf(es),
        emission_ok(es, Seq::<PayloadEntry>::empty(), cs),
    ensures
        reasm_run(ReassemblyState { done: Seq::empty(), pending: Seq::empty() }, cs).done
            =~= es.map_values(|e: PayloadEntry| e.bytes),
        reasm_run(ReassemblyState { done: Seq::empty(), pending: Seq::empty() }, cs).pending
            =~= Seq::<u8>::empty(),
{
    let st0 = ReassemblyState { done: Seq::empty(), pending: Seq::empty() };
    let k = es.len() - 0;
    assert(reasm_run(st0, cs) == (ReassemblyState {
        done: st0.done + consumed_payloads(st0.pending, es, k as int),
        pending: reasm_pending(st0.pending, es, Seq::<PayloadEntry>::empty()),
    }));
    assert(st0.done + consumed_payloads(st0.pending, es, k as int) =~= es.map_values(
        |e: PayloadEntry| e.bytes,
    )) by {
        assert(forall|i: int|
            0 <= i < es.len() ==> consumed_payloads(st0.pending, es, k as int)[i] == (if i == 0 {
                st0.pending + es[0].bytes
            } else {
                es[i].bytes
            }));
        if es.len() > 0 {
            assert(st0.pending + es[0].bytes =~= es[0].bytes);
        }
    }
}

/// A copy of the bytes of `v` from `a` (inclusive) to `b` (exclusive).
pub fn copy_range(v: &Vec<u8>, a: usize, b: usize) -> (r: Vec<u8>)
    requires
        a <= b <= v@.len(),
    ensures
        r@ == v@.subrange(a as int, b as int),
{
    let mut out: Vec<u8> = Vec::new();
    let mut i: usize = a;
    while i < b
        invariant
            a <= i <= b <= v@.len(),
            out@ =~= v@.subrange(a as int, i as int),
        decreases b - i,
    {
        out.push(v[i]);
        proof {
            assert(v@.subrange(a as int, i + 1) =~= v@.subrange(a as int, i as int).push(
                v@[i as int],
            ));
        }
        i = i + 1;
    }
    out
}

/// A zero-filled byte vector of the given length.
pub fn zero_vec(n: usize) -> (r: Vec<u8>)
    ensures
        r@.len() == n,
        forall|i: int| 0 <= i < n ==> r@[i] == 0,
{
    let mut v: Vec<u8> = Vec::new();
    let mut i: usize = 0;
    while i < n
        invariant
            0 <= i <= n,
            v@.len() == i,
            forall|j: int| 0 <= j < i ==> v@[j] == 0,
        decreases n - i,
    {
        v.push(0);
        i = i + 1;
    }
    v
}

/// The chunking engine; carries the bandwidth ratio `q` of the connection.
pub struct Chunker {
    pub q: QRatio,
}

impl Chunker {
    pub fn new(q: QRatio) -> (r: Chunker)
        requires
            q.wf(),
        ensures
            r.q == q,
    {
        Chunker { q }
    }

    /// Replace the ratio, as when the server broadcasts a new `q`.
    pub fn set_q_value(&mut self, q: QRatio)
        requires
            q.wf(),
        ensures
            final(self).q == q,
    {
        self.q = q;
    }

    /// The appendix budget for an overt payload of the given size.
    pub fn get_free_space_in_bytes(&self, regular_payload_size: usize) -> (r: usize)
        requires
            self.q.wf(),
            regular_payload_size <= MAX_OVERT_SIZE,
        ensures
            r == self.q.spec_budget(regular_payload_size as int),
    {
        self.q.budget(regular_payload_size)
    }

    /// Drain the outgoing buffer into a chunk list that, together with the
    /// returned residual free space, exactly exhausts the appendix budget.
    ///
    /// The postconditions say, in order: the budget is met exactly and the
    /// residual is below the per-chunk overhead; the buffer was consumed
    /// from the head; the bytes of the emitted non-dummy chunks are exactly
    /// the bytes that left the buffer, in order; dummy chunks are
    /// zero-filled; data ranks continue the head entry's rank and step down
    /// by one, resetting after each final chunk; and in-order reassembly of
    /// the emitted chunks completes exactly the consumed entries.
    pub fn create_chunks<T: DeniableSendingBuffer>(
        &self,
        regular_payload_size: usize,
        buffer: &mut T,
    ) -> (r: (Vec<DenimChunk>, usize))
        requires
            self.q.wf(),
            regular_payload_size <= MAX_OVERT_SIZE,
            self.q.spec_budget(regular_payload_size as int) >= EMPTY_VEC_SIZE,
            old(buffer).ok(),
        ensures
            final(buffer).ok(),
            final(buffer).blocked() == old(buffer).blocked(),
            emission_ok(old(buffer).entries(), final(buffer).entries(), r.0@),
            ({
                let es = old(buffer).entries();
                let es2 = final(buffer).entries();
                let cs = r.0@;
                let k = es.len() - es2.len();
                &&& chunks_encoded_len(cs) + r.1 == self.q.spec_budget(regular_payload_size as int)
                &&& r.1 < EMPTY_DENIMCHUNK_SIZE
                &&& forall|i: int| 0 <= i < cs.len() - 1 ==> (#[trigger] cs[i]).spec_is_final()
                &&& cs.len() > 0 && !cs.last().spec_is_final() ==> r.1 == 0
                &&& !old(buffer).blocked() ==> forall|i: int|
                    0 <= i < cs.len() && (#[trigger] cs[i]).spec_is_dummy() && cs[i].chunk@.len()
                        > 0 ==> es2.len() == 0
                &&& entries_wf(es2)
                &&& consumption_shape(es, es2)
                &&& emitted_bytes(cs) + buffered_bytes(es2) == buffered_bytes(es)
                &&& forall|i: int|
                    0 <= i < cs.len() && (#[trigger] cs[i]).spec_is_dummy() ==> forall|j: int|
                        0 <= j < cs[i].chunk@.len() ==> cs[i].chunk@[j] == 0
                &&& stream_wf_from(cs, head_rank(es))
                &&& stream_end_expected(cs, head_rank(es)) == head_rank(es2)
                &&& forall|st: ReassemblyState|
                    #[trigger] reasm_run(st, cs) == (ReassemblyState {
                        done: st.done + consumed_payloads(st.pending, es, k),
                        pending: reasm_pending(st.pending, es, es2),
                    })
            }),
    {
        let ghost es0 = old(buffer).entries();
        let total: usize = self.q.budget(regular_payload_size);
        let mut chunks: Vec<DenimChunk> = Vec::new();
        let mut free: usize = total - EMPTY_VEC_SIZE;
        proof {
            buffer.ok_implies_wf();
            if es0.len() > 0 {
                assert(es0.first().bytes =~= es0[0].bytes.skip(0));
                assert(es0.skip(0) =~= es0);
            }
            assert(consumed_payloads(Seq::<u8>::empty(), es0, 0) =~= Seq::<Seq<u8>>::empty());
            assert forall|st: ReassemblyState|
                #[trigger] reasm_run(st, chunks@) == (ReassemblyState {
                    done: st.done + consumed_payloads(st.pending, es0, 0),
                    pending: reasm_pending(st.pending, es0, es0),
                }) by {
                assert(consumed_payloads(st.pending, es0, 0) =~= Seq::<Seq<u8>>::empty());
                assert(st.done + consumed_payloads(st.pending, es0, 0) =~= st.done);
                if es0.len() > 0 {
                    assert(es0[0].bytes.take(0) =~= Seq::<u8>::empty());
                    assert(st.pending + es0[0].bytes.take(0) =~= st.pending);
                }
            }
        }
        while free >= EMPTY_DENIMCHUNK_SIZE
            invariant
                entries_wf(es0),
                buffer.ok(),
                buffer.blocked() == old(buffer).blocked(),
                forall|i: int|
                    0 <= i < chunks@.len() - 1 ==> (#[trigger] chunks@[i]).spec_is_final(),
                chunks@.len() > 0 && !chunks@.last().spec_is_final() ==> free == 0,
                !old(buffer).blocked() ==> forall|i: int|
                    0 <= i < chunks@.len() && (#[trigger] chunks@[i]).spec_is_dummy()
                        && chunks@[i].chunk@.len() > 0 ==> buffer.entries().len() == 0,
                consumption_shape(es0, buffer.entries()),
                chunks_encoded_len(chunks@) + free == self.q.spec_budget(
                    regular_payload_size as int,
                ),
                emitted_bytes(chunks@) + buffered_bytes(buffer.entries()) == buffered_bytes(es0),
                forall|i: int|
                    0 <= i < chunks@.len() && (#[trigger] chunks@[i]).spec_is_dummy()
                        ==> forall|j: int|
                        0 <= j < chunks@[i].chunk@.len() ==> chunks@[i].chunk@[j] == 0,
                stream_wf_from(chunks@, head_rank(es0)),
                stream_end_expected(chunks@, head_rank(es0)) == head_rank(buffer.entries()),
                forall|st: ReassemblyState|
                    #[trigger] reasm_run(st, chunks@) == (ReassemblyState {
                        done: st.done + consumed_payloads(
                            st.pending,
                            es0,
                            es0.len() - buffer.entries().len(),
                        ),
                        pending: reasm_pending(st.pending, es0, buffer.entries()),
                    }),
            decreases free,
        {
            let ghost es_mid = buffer.entries();
            let ghost k: int = es0.len() - es_mid.len();
            proof {
                buffer.ok_implies_wf();
            }
            let chunk_capacity = free - EMPTY_DENIMCHUNK_SIZE;
            let (bytes, taken, flag) = buffer.dequeue_bytes(chunk_capacity);
            let ghost es_next = buffer.entries();
            proof {
                buffer.ok_implies_wf();
            }
            let new_chunk: DenimChunk = if taken > 0 {
                DenimChunk { chunk: bytes, flags: flag }
            } else {
                DenimChunk { chunk: zero_vec(chunk_capacity), flags: DUMMY_FLAG }
            };
            proof {
                let c = new_chunk;
                let cs = chunks@;
                lemma_chunks_encoded_len_push(cs, c);
                lemma_emitted_push(cs, c);
                lemma_stream_push(cs, c, head_rank(es0));
                if taken == 0 {
                    // Dummy chunk: the buffer is unchanged and the stream
                    // gains only cover bytes.
                    assert(es_next == es_mid);
                    assert(emitted_bytes(cs.push(c)) + buffered_bytes(es_next) == buffered_bytes(
                        es0,
                    ));
                    assert forall|st: ReassemblyState|
                        #[trigger] reasm_run(st, cs.push(c)) == (ReassemblyState {
                            done: st.done + consumed_payloads(st.pending, es0, k),
                            pending: reasm_pending(st.pending, es0, es_next),
                        }) by {
                        lemma_reasm_push(st, cs, c);
                    }
                } else if flag == crate::chunk::FINAL_FLAG {
                    // The head entry left whole: one payload completes.
                    assert(es_mid.len() > 0);
                    assert(es_next == es_mid.drop_first());
                    assert(bytes@ == es_mid.first().bytes);
                    lemma_consume_final(es0, es_mid, k);
                    assert forall|st: ReassemblyState|
                        #[trigger] reasm_run(st, cs.push(c)) == (ReassemblyState {
                            done: st.done + consumed_payloads(st.pending, es0, k + 1),
                            pending: reasm_pending(st.pending, es0, es_next),
                        }) by {
                        lemma_reasm_push(st, cs, c);
                        let stm = reasm_run(st, cs);
                        let consumed = es_mid.first().bytes.len() as int;
                        let h0 = es0[k];
                        let c1 = h0.bytes.len() - es_mid.first().bytes.len();
                        assert(stm.pending + c.chunk@ =~= (if k == 0 {
                            st.pending
                        } else {
                            Seq::<u8>::empty()
                        }) + h0.bytes) by {
                            assert(h0.bytes.take(c1) + h0.bytes.skip(c1) =~= h0.bytes);
                        }
                        assert(stm.done.push(stm.pending + c.chunk@) =~= st.done
                            + consumed_payloads(st.pending, es0, k + 1)) by {
                            assert(consumed_payloads(st.pending, es0, k + 1)
                                =~= consumed_payloads(st.pending, es0, k).push(
                                if k == 0 {
                                    st.pending + es0[0].bytes
                                } else {
                                    es0[k].bytes
                                },
                            ));
                        }
                        assert(reasm_pending(st.pending, es0, es_next) =~= Seq::<u8>::empty());
                    }
                    assert(emitted_bytes(cs.push(c)) + buffered_bytes(es_next) == buffered_bytes(
                        es0,
                    )) by {
                        assert(buffered_bytes(es_mid) == es_mid.first().bytes + buffered_bytes(
                            es_next,
                        ));
                        assert((emitted_bytes(cs) + es_mid.first().bytes) + buffered_bytes(es_next)
                            =~= emitted_bytes(cs) + (es_mid.first().bytes + buffered_bytes(
                            es_next,
                        )));
                    }
                } else {
                    // A data chunk: the head entry loses a prefix.
                    assert(es_mid.len() > 0);
                    let h = es_mid.first();
                    let n = taken as int;
                    assert(bytes@ == h.bytes.take(n));
                    lemma_consume_data(es0, es_mid, es_next, k, n);
                    assert forall|st: ReassemblyState|
                        #[trigger] reasm_run(st, cs.push(c)) == (ReassemblyState {
                            done: st.done + consumed_payloads(st.pending, es0, k),
                            pending: reasm_pending(st.pending, es0, es_next),
                        }) by {
                        lemma_reasm_push(st, cs, c);
                        let h0 = es0[k];
                        let c1 = h0.bytes.len() - h.bytes.len();
                        lemma_take_split(h0.bytes, c1, n);
                        assert(h.bytes.take(n) =~= h0.bytes.skip(c1).take(n));
                        let base: Seq<u8> = if k == 0 {
                            st.pending
                        } else {
                            Seq::<u8>::empty()
                        };
                        assert(reasm_pending(st.pending, es0, es_next) =~= (base + h0.bytes.take(
                            c1,
                        )) + c.chunk@);
                    }
                    assert(emitted_bytes(cs.push(c)) + buffered_bytes(es_next) == buffered_bytes(
                        es0,
                    )) by {
                        assert(buffered_bytes(es_mid) == es_mid.first().bytes + buffered_bytes(
                            es_mid.drop_first(),
                        ));
                        assert(buffered_bytes(es_next) == es_next.first().bytes + buffered_bytes(
                            es_next.drop_first(),
                        ));
                        assert(es_next.drop_first() =~= es_mid.drop_first());
                        assert(h.bytes.take(n) + h.bytes.skip(n) =~= h.bytes);
                        assert((emitted_bytes(cs) + h.bytes.take(n)) + (h.bytes.skip(n)
                            + buffered_bytes(es_mid.drop_first())) =~= emitted_bytes(cs) + (h.bytes
                            + buffered_bytes(es_mid.drop_first())));
                    }
                }
            }
            free = free - EMPTY_DENIMCHUNK_SIZE - new_chunk.chunk.len();
            chunks.push(new_chunk);
        }
        proof {
            buffer.ok_implies_wf();
        }
        (chunks, free)
    }
}

/// A deniable payload part-way through chunking: the bytes not yet cut into
/// chunks and the rank the next data chunk must carry.
pub struct PayloadData {
    pub chunk: Vec<u8>,
    pub flags: i32,
}

impl PayloadData {
    /// Fresh payload data: all bytes ahead, next rank `0`.
    pub fn new(data: Vec<u8>) -> (r: PayloadData)
        ensures
            r.chunk@ == data@,
            r.flags == 0,
    {
        PayloadData { chunk: data, flags: 0 }
    }

    /// Ranks stay non-positive and bounded by the bytes still ahead.
    pub open spec fn wf(&self) -> bool {
        self.flags <= 0 && (-self.flags) + self.chunk@.len() <= 0x7fff_ffff
    }
}

impl Chunker {
    /// Cut chunks for one payload held in hand rather than in a buffer.
    ///
    /// Fills the budget of one overt packet from `payload`, then pads with
    /// dummies; whatever did not fit comes back as pending payload data to
    /// be chunked under a later packet.  The postconditions mirror
    /// `create_chunks` for a single-entry queue: the budget is met exactly;
    /// the non-dummy chunks carry exactly the consumed prefix; ranks
    /// continue `payload.flags` downward; and in-order reassembly completes
    /// the payload exactly when the final chunk was emitted, which happens
    /// exactly when the pending bytes come back empty from a non-empty
    /// payload.
    pub fn create_ordered_chunks(q: QRatio, regular_payload_size: usize, payload: PayloadData) -> (r:
        (Vec<DenimChunk>, usize, PayloadData))
        requires
            q.wf(),
            regular_payload_size <= MAX_OVERT_SIZE,
            q.spec_budget(regular_payload_size as int) >= EMPTY_VEC_SIZE,
            payload.wf(),
        ensures
            ({
                let cs = r.0@;
                let pend = r.2;
                let finalized = payload.chunk@.len() > 0 && pend.chunk@.len() == 0;
                let consumed = payload.chunk@.len() - pend.chunk@.len();
                &&& chunks_encoded_len(cs) + r.1 == q.spec_budget(regular_payload_size as int)
                &&& r.1 < EMPTY_DENIMCHUNK_SIZE
                &&& forall|i: int| 0 <= i < cs.len() - 1 ==> (#[trigger] cs[i]).spec_is_final()
                &&& cs.len() > 0 && !cs.last().spec_is_final() ==> r.1 == 0
                &&& forall|i: int|
                    0 <= i < cs.len() && (#[trigger] cs[i]).spec_is_dummy() && cs[i].chunk@.len()
                        > 0 ==> pend.chunk@.len() == 0
                &&& pend.wf()
                &&& pend.chunk@ == payload.chunk@.skip(consumed)
                &&& pend.flags <= payload.flags
                &&& emitted_bytes(cs) == payload.chunk@.take(consumed)
                &&& forall|i: int|
                    0 <= i < cs.len() && (#[trigger] cs[i]).spec_is_dummy() ==> forall|j: int|
                        0 <= j < cs[i].chunk@.len() ==> cs[i].chunk@[j] == 0
                &&& stream_wf_from(cs, payload.flags as int)
                &&& stream_end_expected(cs, payload.flags as int) == (if finalized {
                    0int
                } else {
                    pend.flags as int
                })
                &&& forall|st: ReassemblyState|
                    #[trigger] reasm_run(st, cs) == (if finalized {
                        ReassemblyState {
                            done: st.done.push(st.pending + payload.chunk@),
                            pending: Seq::<u8>::empty(),
                        }
                    } else {
                        ReassemblyState {
                            done: st.done,
                            pending: st.pending + payload.chunk@.take(consumed),
                        }
                    })
            }),
    {
        let total: usize = q.budget(regular_payload_size);
        let mut chunks: Vec<DenimChunk> = Vec::new();
        let mut free: usize = total - EMPTY_VEC_SIZE;
        let mut pos: usize = 0;
        let data: &Vec<u8> = &payload.chunk;
        let mut count: i32 = payload.flags;
        let mut done_final: bool = false;
        proof {
            assert(data@.take(0) =~= Seq::<u8>::empty());
            assert forall|st: ReassemblyState|
                #[trigger] reasm_run(st, chunks@) == (ReassemblyState {
                    done: st.done,
                    pending: st.pending + data@.take(0),
                }) by {
                assert(st.pending + data@.take(0) =~= st.pending);
            }
        }
        while free >= EMPTY_DENIMCHUNK_SIZE
            invariant
                payload.wf(),
                data@ == payload.chunk@,
                chunks_encoded_len(chunks@) + free == q.spec_budget(regular_payload_size as int),
                forall|i: int|
                    0 <= i < chunks@.len() - 1 ==> (#[trigger] chunks@[i]).spec_is_final(),
                chunks@.len() > 0 && !chunks@.last().spec_is_final() ==> free == 0,
                forall|i: int|
                    0 <= i < chunks@.len() && (#[trigger] chunks@[i]).spec_is_dummy()
                        && chunks@[i].chunk@.len() > 0 ==> pos == data@.len(),
                0 <= pos <= data@.len(),
                count <= payload.flags,
                (-count) + (data@.len() - pos) <= (-payload.flags) + data@.len(),
                done_final ==> pos == data@.len() && payload.chunk@.len() > 0,
                !done_final && pos == data@.len() && data@.len() > 0 ==> false,
                emitted_bytes(chunks@) == data@.take(pos as int),
                forall|i: int|
                    0 <= i < chunks@.len() && (#[trigger] chunks@[i]).spec_is_dummy()
                        ==> forall|j: int|
                        0 <= j < chunks@[i].chunk@.len() ==> chunks@[i].chunk@[j] == 0,
                stream_wf_from(chunks@, payload.flags as int),
                stream_end_expected(chunks@, payload.flags as int) == (if done_final {
                    0int
                } else {
                    count as int
                }),
                forall|st: ReassemblyState|
                    #[trigger] reasm_run(st, chunks@) == (if done_final {
                        ReassemblyState {
                            done: st.done.push(st.pending + data@),
                            pending: Seq::<u8>::empty(),
                        }
                    } else {
                        ReassemblyState {
                            done: st.done,
                            pending: st.pending + data@.take(pos as int),
                        }
                    }),
            decreases free,
        {
            let chunk_size = free - EMPTY_DENIMCHUNK_SIZE;
            let remaining = data.len() - pos;
            let new_chunk: DenimChunk;
            if remaining > 0 && chunk_size != 0 {
                if remaining <= chunk_size {
                    // The rest of the payload fits: emit its final chunk.
                    new_chunk = DenimChunk {
                        chunk: copy_range(&data, pos, data.len()),
                        flags: crate::chunk::FINAL_FLAG,
                    };
                    proof {
                        assert(data@.subrange(pos as int, data@.len() as int) =~= data@.skip(
                            pos as int,
                        ));
                    }
                    pos = data.len();
                    done_final = true;
                } else {
                    // Cut a data chunk of exactly the free capacity.
                    new_chunk = DenimChunk {
                        chunk: copy_range(&data, pos, pos + chunk_size),
                        flags: count,
                    };
                    pos = pos + chunk_size;
                    count = count - 1;
                }
            } else {
                new_chunk = DenimChunk { chunk: zero_vec(chunk_size), flags: DUMMY_FLAG };
            }
            proof {
                let c = new_chunk;
                let cs = chunks@;
                lemma_chunks_encoded_len_push(cs, c);
                lemma_emitted_push(cs, c);
                lemma_stream_push(cs, c, payload.flags as int);
                if c.spec_is_dummy() {
                    assert forall|st: ReassemblyState|
                        #[trigger] reasm_run(st, cs.push(c)) == reasm_run(st, cs) by {
                        lemma_reasm_push(st, cs, c);
                    }
                } else if c.spec_is_final() {
                    let old_pos = (pos - c.chunk@.len()) as int;
                    assert forall|st: ReassemblyState|
                        #[trigger] reasm_run(st, cs.push(c)) == (ReassemblyState {
                            done: st.done.push(st.pending + data@),
                            pending: Seq::<u8>::empty(),
                        }) by {
                        lemma_reasm_push(st, cs, c);
                        assert((st.pending + data@.take(old_pos)) + data@.skip(old_pos)
                            =~= st.pending + data@) by {
                            assert(data@.take(old_pos) + data@.skip(old_pos) =~= data@);
                        }
                    }
                    assert(emitted_bytes(cs.push(c)) =~= data@.take(pos as int)) by {
                        assert(data@.take(old_pos) + data@.skip(old_pos) =~= data@);
                        assert(data@.take(data@.len() as int) =~= data@);
                    }
                } else {
                    let old_pos = (pos - c.chunk@.len()) as int;
                    assert(c.chunk@ =~= data@.skip(old_pos).take(pos - old_pos)) by {
                        assert(c.chunk@ == data@.subrange(old_pos, pos as int));
                    }
                    lemma_take_split(data@, old_pos, pos - old_pos);
                    assert forall|st: ReassemblyState|
                        #[trigger] reasm_run(st, cs.push(c)) == (ReassemblyState {
                            done: st.done,
                            pending: st.pending + data@.take(pos as int),
                        }) by {
                        lemma_reasm_push(st, cs, c);
                        assert((st.pending + data@.take(old_pos)) + c.chunk@ =~= st.pending
                            + data@.take(pos as int));
                    }
                    assert(emitted_bytes(cs.push(c)) =~= data@.take(pos as int));
                }
            }
            free = free - EMPTY_DENIMCHUNK_SIZE - new_chunk.chunk.len();
            chunks.push(new_chunk);
        }
        let pending = PayloadData { chunk: copy_range(&data, pos, data.len()), flags: count };
        proof {
            assert(pending.chunk@ =~= data@.skip(pos as int));
        }
        (chunks, free, pending)
    }
}

/// Consuming the whole head of a partially drained queue advances the
/// consumption shape by one full entry.
proof fn lemma_consume_final(es0: Seq<PayloadEntry>, es_mid: Seq<PayloadEntry>, k: int)
    requires
        entries_wf(es0),
        consumption_shape(es0, es_mid),
        es_mid.len() > 0,
        k == es0.len() - es_mid.len(),
    ensures
        consumption_shape(es0, es_mid.drop_first()),
        es_mid.drop_first().len() > 0 ==> es_mid.drop_first().first() == es0[k + 1],
        head_rank(es_mid.drop_first()) == 0,
{
    let es_next = es_mid.drop_first();
    if es_next.len() > 0 {
        assert(es_next.first() == es0.skip(k).drop_first().first());
        assert(es0.skip(k).drop_first().first() == es0[k + 1]);
        assert(es_next.drop_first() =~= es0.skip(k + 1).drop_first()) by {
            assert(es_mid.drop_first() =~= es0.skip(k).drop_first());
            assert(es0.skip(k).drop_first().drop_first() =~= es0.skip(k + 1).drop_first());
        }
        assert(es_next.first().bytes =~= es0[k + 1].bytes.skip(0));
        assert(es0[k + 1].rank == 0);
    }
}

/// Taking a further prefix of the head keeps the consumption shape, with the
/// head's rank one lower.
proof fn lemma_consume_data(
    es0: Seq<PayloadEntry>,
    es_mid: Seq<PayloadEntry>,
    es_next: Seq<PayloadEntry>,
    k: int,
    n: int,
)
    requires
        consumption_shape(es0, es_mid),
        es_mid.len() > 0,
        k == es0.len() - es_mid.len(),
        1 <= n < es_mid.first().bytes.len(),
        es_next == es_mid.update(
            0,
            PayloadEntry {
                id: es_mid.first().id,
                bytes: es_mid.first().bytes.skip(n),
                rank: es_mid.first().rank - 1,
            },
        ),
    ensures
        consumption_shape(es0, es_next),
        head_rank(es_next) == es_mid.first().rank - 1,
{
    let h0 = es0[k];
    let h = es_mid.first();
    let c1 = h0.bytes.len() - h.bytes.len();
    assert(es_next.first().bytes =~= h0.bytes.skip(c1 + n)) by {
        assert(h.bytes == h0.bytes.skip(c1));
        assert(h0.bytes.skip(c1).skip(n) =~= h0.bytes.skip(c1 + n));
    }
    assert(es_next.drop_first() =~= es_mid.drop_first());
}

} // verus!
