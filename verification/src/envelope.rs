//! The DenIM envelope: an overt payload with its deniable appendix.
//!
//! An envelope carries the overt payload bytes, the chunk list drawn from
//! the sender's outgoing buffer, an optional counter, the broadcast
//! bandwidth ratio as raw wire bits, and zero ballast sized so that the
//! chunk list and ballast together cost exactly the ceiling of the overt
//! payload size times `q`.

use vstd::prelude::*;

use crate::chunk::DenimChunk;
use crate::chunker::{emission_ok, zero_vec, Chunker};
use crate::codec::{
    chunks_body, chunks_bytes, chunks_encoded_len, encode_chunks, lemma_chunks_bytes_len,
    lp_bytes, opt_u32_bytes, push_chunk, push_lp, push_opt_u32, push_u64, read_i32, read_lp,
    read_opt_u32, read_u32, read_u64, u64_le, EMPTY_VEC_SIZE,
};
use crate::outgoing::DeniableSendingBuffer;
use crate::ratio::{QRatio, MAX_OVERT_SIZE};

verus! {

/// One DenIM envelope on the wire.
#[derive(Clone, PartialEq, Eq, Debug)]
pub struct DenimMessage {
    pub regular_payload: Vec<u8>,
    pub chunks: Vec<DenimChunk>,
    pub counter: Option<u32>,
    pub q_bits: Option<u32>,
    pub ballast: Vec<u8>,
}

/// The encoding of an envelope: the length-prefixed overt payload, the
/// chunk list, the two optional words, and the length-prefixed ballast.
pub open spec fn denim_message_bytes(dm: DenimMessage) -> Seq<u8> {
    lp_bytes(dm.regular_payload@) + chunks_bytes(dm.chunks@) + opt_u32_bytes(dm.counter)
        + opt_u32_bytes(dm.q_bits) + lp_bytes(dm.ballast@)
}

/// Encode an envelope.
pub fn encode_denim_message(dm: &DenimMessage) -> (r: Vec<u8>)
    ensures
        r@ == denim_message_bytes(*dm),
{
    let mut out: Vec<u8> = Vec::new();
    push_lp(&mut out, &dm.regular_payload);
    let cb = encode_chunks(&dm.chunks);
    let mut k: usize = 0;
    let ghost mid = out@;
    while k < cb.len()
        invariant
            0 <= k <= cb@.len(),
            out@ == mid + cb@.take(k as int),
        decreases cb@.len() - k,
    {
        proof {
            assert((mid + cb@.take(k as int)).push(cb@[k as int]) =~= mid + cb@.take(k + 1));
        }
        out.push(cb[k]);
        k = k + 1;
    }
    proof {
        assert(cb@.take(cb@.len() as int) =~= cb@);
    }
    push_opt_u32(&mut out, &dm.counter);
    push_opt_u32(&mut out, &dm.q_bits);
    push_lp(&mut out, &dm.ballast);
    proof {
        assert(out@ =~= denim_message_bytes(*dm));
    }
    out
}

/// How an encoded envelope slices up.
proof fn lemma_dm_decompose(dm: DenimMessage, b: Seq<u8>)
    requires
        b == denim_message_bytes(dm),
    ensures
        ({
            let rl = dm.regular_payload@.len() as int;
            let cb = chunks_body(dm.chunks@).len() as int;
            let o1 = opt_u32_bytes(dm.counter).len() as int;
            let o2 = opt_u32_bytes(dm.q_bits).len() as int;
            let bl = dm.ballast@.len() as int;
            &&& dm.regular_payload@.len() <= u64::MAX
            &&& dm.chunks@.len() <= u64::MAX
            &&& dm.ballast@.len() <= u64::MAX
            &&& b.len() == 24 + rl + cb + o1 + o2 + bl
            &&& b.subrange(0, 8) =~= u64_le(dm.regular_payload@.len() as u64)
            &&& b.subrange(8, 8 + rl) =~= dm.regular_payload@
            &&& b.subrange(8 + rl, 16 + rl) =~= u64_le(dm.chunks@.len() as u64)
            &&& b.subrange(16 + rl, 16 + rl + cb) =~= chunks_body(dm.chunks@)
            &&& b.subrange(16 + rl + cb, b.len() as int) =~= opt_u32_bytes(dm.counter)
                + opt_u32_bytes(dm.q_bits) + lp_bytes(dm.ballast@)
        }),
{
    assert(dm.regular_payload.len() == dm.regular_payload@.len());
    assert(dm.chunks.len() == dm.chunks@.len());
    assert(dm.ballast.len() == dm.ballast@.len());
}

/// A buffer carrying an encoded envelope, with its overt payload, chunk
/// count, and a prefix of its chunks already read back, pins the envelope's
/// fields so far and leaves exactly the remaining pieces ahead.
proof fn lemma_dm_alignment(
    dm: DenimMessage,
    b: Seq<u8>,
    regular: Seq<u8>,
    count: u64,
    parsed: Seq<DenimChunk>,
    pos: int,
)
    requires
        b == denim_message_bytes(dm),
        regular.len() <= u64::MAX,
        8 + regular.len() <= b.len(),
        b.subrange(0, 8) == u64_le(regular.len() as u64),
        b.subrange(8, 8 + regular.len() as int) == regular,
        16 + regular.len() <= b.len(),
        b.subrange(8 + regular.len() as int, 16 + regular.len() as int) == u64_le(count),
        16 + regular.len() <= pos <= b.len(),
        b.subrange(16 + regular.len() as int, pos) == chunks_body(parsed),
        parsed.len() <= count,
    ensures
        dm.regular_payload@ == regular,
        dm.chunks@.len() == count,
        parsed.len() <= dm.chunks@.len(),
        forall|i: int|
            0 <= i < parsed.len() ==> (#[trigger] parsed[i]).chunk@ == dm.chunks@[i].chunk@
                && parsed[i].flags == dm.chunks@[i].flags,
        b.subrange(pos, b.len() as int) == chunks_body(dm.chunks@.skip(parsed.len() as int))
            + (opt_u32_bytes(dm.counter) + opt_u32_bytes(dm.q_bits) + lp_bytes(dm.ballast@)),
{
    lemma_dm_decompose(dm, b);
    let rl = dm.regular_payload@.len() as int;
    let cb = chunks_body(dm.chunks@).len() as int;
    crate::codec::lemma_u64_le_inj(regular.len() as u64, dm.regular_payload@.len() as u64);
    assert(regular.len() == dm.regular_payload@.len());
    assert(dm.regular_payload@ =~= regular);
    crate::codec::lemma_u64_le_inj(count, dm.chunks@.len() as u64);
    let tail = opt_u32_bytes(dm.counter) + opt_u32_bytes(dm.q_bits) + lp_bytes(dm.ballast@);
    assert(b.subrange(16 + rl, b.len() as int) =~= chunks_body(dm.chunks@) + tail) by {
        assert(b.subrange(16 + rl, b.len() as int) =~= b.subrange(16 + rl, 16 + rl + cb)
            + b.subrange(16 + rl + cb, b.len() as int));
    }
    assert(chunks_body(parsed) + b.subrange(pos, b.len() as int) =~= chunks_body(dm.chunks@)
        + tail) by {
        assert(b.subrange(16 + rl, b.len() as int) =~= b.subrange(16 + rl, pos) + b.subrange(
            pos,
            b.len() as int,
        ));
    }
    crate::codec::lemma_chunks_body_split(
        dm.chunks@,
        parsed,
        b.subrange(pos, b.len() as int),
        tail,
    );
}

/// A fully read chunk list leaves only the envelope's trailing fields.
proof fn lemma_dm_empty_rest(dm: DenimMessage, parsed: Seq<DenimChunk>)
    requires
        parsed.len() == dm.chunks@.len(),
    ensures
        chunks_body(dm.chunks@.skip(parsed.len() as int)) =~= Seq::<u8>::empty(),
{
    assert(dm.chunks@.skip(parsed.len() as int) =~= Seq::<DenimChunk>::empty());
}

/// Decode an envelope.
///
/// Returns the envelope whose encoding is exactly the given bytes, and
/// `None` precisely when no envelope encodes to them.
#[verifier::rlimit(100)]
pub fn decode_denim_message(b: &Vec<u8>) -> (r: Option<DenimMessage>)
    ensures
        match r {
            Some(dm) => denim_message_bytes(dm) == b@,
            None => forall|dm: DenimMessage| b@ != #[trigger] denim_message_bytes(dm),
        },
{
    let (regular_payload, p1) = match read_lp(b, 0) {
        Some(t) => t,
        None => {
            proof {
                assert forall|dm: DenimMessage| b@ != #[trigger] denim_message_bytes(dm) by {
                    if b@ == denim_message_bytes(dm) {
                        lemma_dm_decompose(dm, b@);
                    }
                }
            }
            return None;
        },
    };
    let (count, p2) = match read_u64(b, p1) {
        Some(t) => t,
        None => {
            proof {
                assert forall|dm: DenimMessage| b@ != #[trigger] denim_message_bytes(dm) by {
                    if b@ == denim_message_bytes(dm) {
                        lemma_dm_decompose(dm, b@);
                        crate::codec::lemma_u64_le_inj(
                            regular_payload@.len() as u64,
                            dm.regular_payload@.len() as u64,
                        );
                    }
                }
            }
            return None;
        },
    };
    let mut chunks: Vec<DenimChunk> = Vec::new();
    let mut pos: usize = p2;
    let mut i: u64 = 0;
    proof {
        assert(b@.subrange(p2 as int, pos as int) =~= chunks_body(chunks@));
        assert(regular_payload.len() == regular_payload@.len());
    }
    while i < count
        invariant
            chunks@.len() == i,
            i <= count,
            regular_payload@.len() <= u64::MAX,
            p1 == 8 + regular_payload@.len(),
            p2 == p1 + 8,
            p2 <= pos <= b@.len(),
            b@.subrange(0, 8) == u64_le(regular_payload@.len() as u64),
            b@.subrange(8, p1 as int) == regular_payload@,
            b@.subrange(p1 as int, p2 as int) == u64_le(count),
            b@.subrange(p2 as int, pos as int) == chunks_body(chunks@),
        decreases count - i,
    {
        let ghost cs0 = chunks@;
        let (payload, q1) = match read_lp(b, pos) {
            Some(t) => t,
            None => {
                proof {
                    assert forall|dm: DenimMessage| b@ != #[trigger] denim_message_bytes(dm) by {
                        if b@ == denim_message_bytes(dm) {
                            lemma_dm_alignment(
                                dm,
                                b@,
                                regular_payload@,
                                count,
                                cs0,
                                pos as int,
                            );
                            let rest = dm.chunks@.skip(cs0.len() as int);
                            assert(rest.len() > 0);
                            crate::codec::lemma_chunks_body_first(rest);
                            let ci = rest.first();
                            assert(ci.chunk.len() == ci.chunk@.len());
                            let n = ci.chunk@.len() as int;
                            let after = chunks_body(rest.drop_first())
                                + (opt_u32_bytes(dm.counter) + opt_u32_bytes(dm.q_bits)
                                + lp_bytes(dm.ballast@));
                            assert(b@.subrange(pos as int, b@.len() as int)
                                =~= crate::codec::chunk_bytes(ci) + after);
                            assert(b@.subrange(pos as int, pos + 8) =~= u64_le(
                                ci.chunk@.len() as u64,
                            ));
                            assert(pos + 8 + ci.chunk@.len() <= b@.len());
                        }
                    }
                }
                return None;
            },
        };
        let (flags, q2) = match read_i32(b, q1) {
            Some(t) => t,
            None => {
                proof {
                    assert forall|dm: DenimMessage| b@ != #[trigger] denim_message_bytes(dm) by {
                        if b@ == denim_message_bytes(dm) {
                            lemma_dm_alignment(
                                dm,
                                b@,
                                regular_payload@,
                                count,
                                cs0,
                                pos as int,
                            );
                            let rest = dm.chunks@.skip(cs0.len() as int);
                            assert(rest.len() > 0);
                            crate::codec::lemma_chunks_body_first(rest);
                            let ci = rest.first();
                            assert(ci.chunk.len() == ci.chunk@.len());
                            let n = ci.chunk@.len() as int;
                            let after = chunks_body(rest.drop_first())
                                + (opt_u32_bytes(dm.counter) + opt_u32_bytes(dm.q_bits)
                                + lp_bytes(dm.ballast@));
                            assert(b@.subrange(pos as int, b@.len() as int)
                                =~= crate::codec::chunk_bytes(ci) + after);
                            assert(b@.subrange(pos as int, pos + 8) =~= u64_le(
                                ci.chunk@.len() as u64,
                            ));
                            crate::codec::lemma_u64_le_inj(
                                payload@.len() as u64,
                                ci.chunk@.len() as u64,
                            );
                            assert(q1 == pos + 8 + n);
                            assert(q1 + 4 <= b@.len());
                        }
                    }
                }
                return None;
            },
        };
        let c = DenimChunk { chunk: payload, flags };
        proof {
            assert(b@.subrange(pos as int, q2 as int) =~= crate::codec::chunk_bytes(c)) by {
                assert(b@.subrange(pos as int, q2 as int) =~= b@.subrange(pos as int, pos + 8)
                    + b@.subrange(pos + 8, q1 as int) + b@.subrange(q1 as int, q2 as int));
            }
            crate::codec::lemma_chunks_body_push(cs0, c);
            assert(b@.subrange(p2 as int, q2 as int) =~= chunks_body(cs0.push(c)))
                by {
                assert(b@.subrange(p2 as int, q2 as int) =~= b@.subrange(p2 as int, pos as int)
                    + b@.subrange(pos as int, q2 as int));
            }
        }
        chunks.push(c);
        pos = q2;
        i = i + 1;
    }
    let ghost tail_start = pos as int;
    proof {
        assert(chunks@.len() == count);
    }
    let (counter, q_bits, ballast) = match read_dm_tail(
        b,
        pos,
        Ghost(regular_payload@),
        Ghost(count),
        Ghost(chunks@),
    ) {
        Some(t) => t,
        None => {
            return None;
        },
    };
    let dm = DenimMessage { regular_payload, chunks, counter, q_bits, ballast };
    proof {
        assert(dm.chunks@.len() as u64 == count);
        assert(chunks_bytes(dm.chunks@) =~= b@.subrange(p1 as int, p2 as int) + b@.subrange(
            p2 as int,
            pos as int,
        ));
        assert(denim_message_bytes(dm) =~= b@) by {
            assert(b@ =~= b@.subrange(0, p1 as int) + b@.subrange(p1 as int, p2 as int)
                + b@.subrange(p2 as int, pos as int) + b@.subrange(pos as int, b@.len() as int));
        }
    }
    Some(dm)
}

/// Read the trailing fields of an encoded envelope — the two optional
/// words and the ballast — knowing the overt payload, the chunk count and
/// every chunk were already read back; a failure means no envelope encodes
/// to the buffer.
#[verifier::rlimit(100)]
fn read_dm_tail(
    b: &Vec<u8>,
    pos: usize,
    Ghost(regular): Ghost<Seq<u8>>,
    Ghost(count): Ghost<u64>,
    Ghost(parsed): Ghost<Seq<DenimChunk>>,
) -> (r: Option<(Option<u32>, Option<u32>, Vec<u8>)>)
    requires
        regular.len() <= u64::MAX,
        8 + regular.len() <= b@.len(),
        b@.subrange(0, 8) == u64_le(regular.len() as u64),
        b@.subrange(8, 8 + regular.len() as int) == regular,
        16 + regular.len() <= b@.len(),
        b@.subrange(8 + regular.len() as int, 16 + regular.len() as int) == u64_le(count),
        16 + regular.len() <= pos <= b@.len(),
        b@.subrange(16 + regular.len() as int, pos as int) == chunks_body(parsed),
        parsed.len() == count,
    ensures
        match r {
            Some(t) => b@.subrange(pos as int, b@.len() as int) == opt_u32_bytes(t.0)
                + opt_u32_bytes(t.1) + lp_bytes(t.2@),
            None => forall|dm: DenimMessage| b@ != #[trigger] denim_message_bytes(dm),
        },
{
    let (counter, p3) = match read_opt_u32(b, pos) {
        Some(t) => t,
        None => {
            proof {
                assert forall|dm: DenimMessage| b@ != #[trigger] denim_message_bytes(dm) by {
                    if b@ == denim_message_bytes(dm) {
                        lemma_dm_alignment(dm, b@, regular, count, parsed, pos as int);
                        lemma_dm_empty_rest(dm, parsed);
                        let o1 = opt_u32_bytes(dm.counter).len() as int;
                        assert(b@.subrange(pos as int, b@.len() as int) =~= opt_u32_bytes(
                            dm.counter,
                        ) + (opt_u32_bytes(dm.q_bits) + lp_bytes(dm.ballast@)));
                        assert(b@.subrange(pos as int, pos + o1) =~= opt_u32_bytes(dm.counter));
                        assert(pos + o1 <= b@.len());
                    }
                }
            }
            return None;
        },
    };
    let (q_bits, p4) = match read_opt_u32(b, p3) {
        Some(t) => t,
        None => {
            proof {
                assert forall|dm: DenimMessage| b@ != #[trigger] denim_message_bytes(dm) by {
                    if b@ == denim_message_bytes(dm) {
                        lemma_dm_alignment(dm, b@, regular, count, parsed, pos as int);
                        lemma_dm_empty_rest(dm, parsed);
                        assert(b@.subrange(pos as int, b@.len() as int) =~= opt_u32_bytes(
                            dm.counter,
                        ) + (opt_u32_bytes(dm.q_bits) + lp_bytes(dm.ballast@)));
                        assert(b@.subrange(pos as int, b@.len() as int) =~= opt_u32_bytes(
                            counter,
                        ) + b@.subrange(p3 as int, b@.len() as int)) by {
                            assert(b@.subrange(pos as int, b@.len() as int) =~= b@.subrange(
                                pos as int,
                                p3 as int,
                            ) + b@.subrange(p3 as int, b@.len() as int));
                        }
                        crate::codec::lemma_opt_prefix_det(
                            counter,
                            dm.counter,
                            b@.subrange(p3 as int, b@.len() as int),
                            opt_u32_bytes(dm.q_bits) + lp_bytes(dm.ballast@),
                        );
                        let o2 = opt_u32_bytes(dm.q_bits).len() as int;
                        assert(b@.subrange(p3 as int, p3 + o2) =~= opt_u32_bytes(dm.q_bits));
                        assert(p3 + o2 <= b@.len());
                    }
                }
            }
            return None;
        },
    };
    let (ballast, p5) = match read_lp(b, p4) {
        Some(t) => t,
        None => {
            proof {
                assert forall|dm: DenimMessage| b@ != #[trigger] denim_message_bytes(dm) by {
                    if b@ == denim_message_bytes(dm) {
                        lemma_dm_alignment(dm, b@, regular, count, parsed, pos as int);
                        lemma_dm_empty_rest(dm, parsed);
                        assert(b@.subrange(pos as int, b@.len() as int) =~= opt_u32_bytes(
                            dm.counter,
                        ) + (opt_u32_bytes(dm.q_bits) + lp_bytes(dm.ballast@)));
                        assert(b@.subrange(pos as int, b@.len() as int) =~= opt_u32_bytes(
                            counter,
                        ) + b@.subrange(p3 as int, b@.len() as int)) by {
                            assert(b@.subrange(pos as int, b@.len() as int) =~= b@.subrange(
                                pos as int,
                                p3 as int,
                            ) + b@.subrange(p3 as int, b@.len() as int));
                        }
                        crate::codec::lemma_opt_prefix_det(
                            counter,
                            dm.counter,
                            b@.subrange(p3 as int, b@.len() as int),
                            opt_u32_bytes(dm.q_bits) + lp_bytes(dm.ballast@),
                        );
                        assert(b@.subrange(p3 as int, b@.len() as int) =~= opt_u32_bytes(q_bits)
                            + b@.subrange(p4 as int, b@.len() as int)) by {
                            assert(b@.subrange(p3 as int, b@.len() as int) =~= b@.subrange(
                                p3 as int,
                                p4 as int,
                            ) + b@.subrange(p4 as int, b@.len() as int));
                        }
                        crate::codec::lemma_opt_prefix_det(
                            q_bits,
                            dm.q_bits,
                            b@.subrange(p4 as int, b@.len() as int),
                            lp_bytes(dm.ballast@),
                        );
                        assert(dm.ballast.len() == dm.ballast@.len());
                        assert(b@.subrange(p4 as int, p4 + 8) =~= u64_le(
                            dm.ballast@.len() as u64,
                        ));
                        assert(p4 + 8 + dm.ballast@.len() <= b@.len());
                    }
                }
            }
            return None;
        },
    };
    if p5 != b.len() {
        proof {
            assert forall|dm: DenimMessage| b@ != #[trigger] denim_message_bytes(dm) by {
                if b@ == denim_message_bytes(dm) {
                    lemma_dm_alignment(dm, b@, regular, count, parsed, pos as int);
                    lemma_dm_empty_rest(dm, parsed);
                    assert(b@.subrange(pos as int, b@.len() as int) =~= opt_u32_bytes(dm.counter)
                        + (opt_u32_bytes(dm.q_bits) + lp_bytes(dm.ballast@)));
                    assert(b@.subrange(pos as int, b@.len() as int) =~= opt_u32_bytes(counter)
                        + b@.subrange(p3 as int, b@.len() as int)) by {
                        assert(b@.subrange(pos as int, b@.len() as int) =~= b@.subrange(
                            pos as int,
                            p3 as int,
                        ) + b@.subrange(p3 as int, b@.len() as int));
                    }
                    crate::codec::lemma_opt_prefix_det(
                        counter,
                        dm.counter,
                        b@.subrange(p3 as int, b@.len() as int),
                        opt_u32_bytes(dm.q_bits) + lp_bytes(dm.ballast@),
                    );
                    assert(b@.subrange(p3 as int, b@.len() as int) =~= opt_u32_bytes(q_bits)
                        + b@.subrange(p4 as int, b@.len() as int)) by {
                        assert(b@.subrange(p3 as int, b@.len() as int) =~= b@.subrange(
                            p3 as int,
                            p4 as int,
                        ) + b@.subrange(p4 as int, b@.len() as int));
                    }
                    crate::codec::lemma_opt_prefix_det(
                        q_bits,
                        dm.q_bits,
                        b@.subrange(p4 as int, b@.len() as int),
                        lp_bytes(dm.ballast@),
                    );
                    assert(dm.ballast.len() == dm.ballast@.len());
                    assert(b@.subrange(p4 as int, p4 + 8) =~= u64_le(dm.ballast@.len() as u64));
                    crate::codec::lemma_u64_le_inj(
                        ballast@.len() as u64,
                        dm.ballast@.len() as u64,
                    );
                    assert(p5 == p4 + 8 + dm.ballast@.len());
                    assert(b@.subrange(p4 as int, b@.len() as int).len() == 8
                        + dm.ballast@.len());
                }
            }
        }
        return None;
    }
    proof {
        assert(b@.subrange(pos as int, b@.len() as int) =~= opt_u32_bytes(counter)
            + opt_u32_bytes(q_bits) + lp_bytes(ballast@)) by {
            assert(b@.subrange(pos as int, b@.len() as int) =~= b@.subrange(pos as int, p3 as int)
                + b@.subrange(p3 as int, p4 as int) + b@.subrange(p4 as int, b@.len() as int));
        }
    }
    Some((counter, q_bits, ballast))
}

/// Build the deniable appendix of one envelope.
///
/// Draws chunks from the outgoing buffer under the rule that the serialized
/// chunk list plus the zero ballast costs exactly `ceil(size * q)` bytes:
/// the q-budget holds exactly, and the chunks are a faithful emission of the
/// buffer's head.
pub fn assemble_denim_message<T: DeniableSendingBuffer>(
    chunker: &Chunker,
    regular_payload: Vec<u8>,
    buffer: &mut T,
    counter: Option<u32>,
    q_bits: Option<u32>,
) -> (dm: DenimMessage)
    requires
        chunker.q.wf(),
        regular_payload@.len() <= MAX_OVERT_SIZE,
        chunker.q.spec_budget(regular_payload@.len() as int) >= EMPTY_VEC_SIZE,
        old(buffer).ok(),
    ensures
        final(buffer).ok(),
        final(buffer).blocked() == old(buffer).blocked(),
        dm.regular_payload@ == regular_payload@,
        dm.counter == counter,
        dm.q_bits == q_bits,
        chunks_bytes(dm.chunks@).len() + dm.ballast@.len() == chunker.q.spec_budget(
            regular_payload@.len() as int,
        ),
        forall|j: int| 0 <= j < dm.ballast@.len() ==> dm.ballast@[j] == 0,
        forall|i: int| 0 <= i < dm.chunks@.len() - 1 ==> (#[trigger] dm.chunks@[i]).spec_is_final(),
        dm.chunks@.len() > 0 && !dm.chunks@.last().spec_is_final() ==> dm.ballast@.len() == 0,
        !old(buffer).blocked() ==> forall|i: int|
            0 <= i < dm.chunks@.len() && (#[trigger] dm.chunks@[i]).spec_is_dummy()
                && dm.chunks@[i].chunk@.len() > 0 ==> final(buffer).entries().len() == 0,
        emission_ok(old(buffer).entries(), final(buffer).entries(), dm.chunks@),
{
    let size = regular_payload.len();
    let (chunks, residual) = chunker.create_chunks(size, buffer);
    let ballast = zero_vec(residual);
    proof {
        lemma_chunks_bytes_len(chunks@);
    }
    DenimMessage { regular_payload, chunks, counter, q_bits, ballast }
}

} // verus!
