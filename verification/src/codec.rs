//! Deterministic binary encoding of the wire types.
//!
//! Integers are little-endian and fixed width, byte vectors carry a 64-bit
//! length prefix, options a one-byte tag, and tagged unions a 32-bit tag.
//! The two protocol constants the chunker budgets with follow from this
//! layout: an empty chunk list costs `EMPTY_VEC_SIZE` bytes and every chunk
//! costs `EMPTY_DENIMCHUNK_SIZE` bytes besides its payload.

use vstd::prelude::*;

use crate::chunk::DenimChunk;
use crate::payload::{DeniablePayload, PayloadModel, PreKeyItemModel};

verus! {

/// The little-endian bytes of a 32-bit word.
pub open spec fn u32_le(x: u32) -> Seq<u8> {
    seq![
        (x & 0xff) as u8,
        ((x >> 8) & 0xff) as u8,
        ((x >> 16) & 0xff) as u8,
        ((x >> 24) & 0xff) as u8,
    ]
}

/// The little-endian bytes of a 64-bit word.
pub open spec fn u64_le(x: u64) -> Seq<u8> {
    seq![
        (x & 0xff) as u8,
        ((x >> 8) & 0xff) as u8,
        ((x >> 16) & 0xff) as u8,
        ((x >> 24) & 0xff) as u8,
        ((x >> 32) & 0xff) as u8,
        ((x >> 40) & 0xff) as u8,
        ((x >> 48) & 0xff) as u8,
        ((x >> 56) & 0xff) as u8,
    ]
}

/// The little-endian bytes of a 32-bit flag word, two's complement.
pub open spec fn i32_le(x: i32) -> Seq<u8> {
    u32_le(x as u32)
}

/// A length-prefixed byte string: a 64-bit length, then the bytes.
pub open spec fn lp_bytes(s: Seq<u8>) -> Seq<u8> {
    u64_le(s.len() as u64) + s
}

/// One encoded chunk: its length-prefixed payload, then its flag word.
pub open spec fn chunk_bytes(c: DenimChunk) -> Seq<u8> {
    lp_bytes(c.chunk@) + i32_le(c.flags)
}

/// An encoded chunk list: a 64-bit count, then each chunk.
pub open spec fn chunks_body(cs: Seq<DenimChunk>) -> Seq<u8>
    decreases cs.len(),
{
    if cs.len() == 0 {
        Seq::empty()
    } else {
        chunks_body(cs.drop_last()) + chunk_bytes(cs.last())
    }
}

/// An encoded chunk list: a 64-bit count, then each chunk.
pub open spec fn chunks_bytes(cs: Seq<DenimChunk>) -> Seq<u8> {
    u64_le(cs.len() as u64) + chunks_body(cs)
}

/// An encoded optional 32-bit word: one tag byte, then the word if present.
pub open spec fn opt_u32_bytes(x: Option<u32>) -> Seq<u8> {
    match x {
        None => seq![0u8],
        Some(v) => seq![1u8] + u32_le(v),
    }
}

/// One encoded prekey item.
pub open spec fn item_bytes(it: PreKeyItemModel) -> Seq<u8> {
    u32_le(it.device_id) + u32_le(it.registration_id) + lp_bytes(it.bundle)
}

/// An encoded prekey item list: a 64-bit count, then each item.
pub open spec fn items_body(its: Seq<PreKeyItemModel>) -> Seq<u8>
    decreases its.len(),
{
    if its.len() == 0 {
        Seq::empty()
    } else {
        items_body(its.drop_last()) + item_bytes(its.last())
    }
}

/// An encoded deniable payload: a 32-bit variant tag, then the fields in
/// declaration order.
pub open spec fn payload_bytes(p: PayloadModel) -> Seq<u8> {
    match p {
        PayloadModel::SignalMessage(sm) => u32_le(0) + u32_le(sm.message_type) + u32_le(
            sm.destination_device_id,
        ) + u32_le(sm.destination_registration_id) + lp_bytes(sm.destination_service_id)
            + lp_bytes(sm.content),
        PayloadModel::Envelope(e) => u32_le(1) + u32_le(e.envelope_type) + lp_bytes(
            e.source_service_id,
        ) + u32_le(e.source_device_id) + lp_bytes(e.destination_service_id) + lp_bytes(e.content)
            + u64_le(e.timestamp),
        PayloadModel::KeyRequest(sid) => u32_le(2) + lp_bytes(sid),
        PayloadModel::KeyResponse(kr) => u32_le(3) + lp_bytes(kr.service_id) + lp_bytes(
            kr.identity_key,
        ) + u64_le(kr.items.len() as u64) + items_body(kr.items),
    }
}

/// The 32-bit word four little-endian bytes stand for.
pub open spec fn u32_of_le(b0: u8, b1: u8, b2: u8, b3: u8) -> u32 {
    (b0 as u32) | ((b1 as u32) << 8) | ((b2 as u32) << 16) | ((b3 as u32) << 24)
}

/// The 64-bit word eight little-endian bytes stand for.
pub open spec fn u64_of_le(b0: u8, b1: u8, b2: u8, b3: u8, b4: u8, b5: u8, b6: u8, b7: u8) -> u64 {
    (b0 as u64) | ((b1 as u64) << 8) | ((b2 as u64) << 16) | ((b3 as u64) << 24) | ((b4 as u64)
        << 32) | ((b5 as u64) << 40) | ((b6 as u64) << 48) | ((b7 as u64) << 56)
}

/// Reading back the little-endian bytes of a word yields the word.
pub proof fn lemma_u32_le_of(x: u32)
    ensures
        u32_of_le(
            (x & 0xff) as u8,
            ((x >> 8) & 0xff) as u8,
            ((x >> 16) & 0xff) as u8,
            ((x >> 24) & 0xff) as u8,
        ) == x,
{
    assert(((x & 0xff) as u8 as u32) | ((((x >> 8) & 0xff) as u8 as u32) << 8) | ((((x >> 16)
        & 0xff) as u8 as u32) << 16) | ((((x >> 24) & 0xff) as u8 as u32) << 24) == x)
        by (bit_vector);
}

/// Reading back the little-endian bytes of a word yields the word.
pub proof fn lemma_u64_le_of(x: u64)
    ensures
        u64_of_le(
            (x & 0xff) as u8,
            ((x >> 8) & 0xff) as u8,
            ((x >> 16) & 0xff) as u8,
            ((x >> 24) & 0xff) as u8,
            ((x >> 32) & 0xff) as u8,
            ((x >> 40) & 0xff) as u8,
            ((x >> 48) & 0xff) as u8,
            ((x >> 56) & 0xff) as u8,
        ) == x,
{
    assert(((x & 0xff) as u8 as u64) | ((((x >> 8) & 0xff) as u8 as u64) << 8) | ((((x >> 16)
        & 0xff) as u8 as u64) << 16) | ((((x >> 24) & 0xff) as u8 as u64) << 24) | ((((x >> 32)
        & 0xff) as u8 as u64) << 32) | ((((x >> 40) & 0xff) as u8 as u64) << 40) | ((((x >> 48)
        & 0xff) as u8 as u64) << 48) | ((((x >> 56) & 0xff) as u8 as u64) << 56) == x)
        by (bit_vector);
}

/// Two words with the same little-endian bytes are the same word.
pub proof fn lemma_u32_le_inj(x: u32, y: u32)
    requires
        u32_le(x) == u32_le(y),
    ensures
        x == y,
{
    lemma_u32_le_of(x);
    lemma_u32_le_of(y);
    assert(u32_le(x)[0] == u32_le(y)[0] && u32_le(x)[1] == u32_le(y)[1] && u32_le(x)[2] == u32_le(
        y,
    )[2] && u32_le(x)[3] == u32_le(y)[3]);
}

/// Two words with the same little-endian bytes are the same word.
pub proof fn lemma_u64_le_inj(x: u64, y: u64)
    requires
        u64_le(x) == u64_le(y),
    ensures
        x == y,
{
    lemma_u64_le_of(x);
    lemma_u64_le_of(y);
    assert(forall|i: int| 0 <= i < 8 ==> u64_le(x)[i] == u64_le(y)[i]);
}

/// Two flag words with the same bytes are the same flag word.
pub proof fn lemma_i32_le_inj(x: i32, y: i32)
    requires
        i32_le(x) == i32_le(y),
    ensures
        x == y,
{
    lemma_u32_le_inj(x as u32, y as u32);
    assert(x as u32 == y as u32 ==> x == y) by (bit_vector);
}

/// Read a 32-bit little-endian word.
pub fn read_u32(b: &Vec<u8>, pos: usize) -> (r: Option<(u32, usize)>)
    ensures
        match r {
            Some(t) => t.1 == pos + 4 && t.1 <= b@.len() && b@.subrange(pos as int, t.1 as int)
                == u32_le(t.0),
            None => pos + 4 > b@.len(),
        },
{
    if pos < b.len() && b.len() - pos >= 4 {
        let b0 = b[pos];
        let b1 = b[pos + 1];
        let b2 = b[pos + 2];
        let b3 = b[pos + 3];
        let x = (b0 as u32) | ((b1 as u32) << 8) | ((b2 as u32) << 16) | ((b3 as u32) << 24);
        proof {
            assert((x & 0xff) as u8 == b0 && ((x >> 8) & 0xff) as u8 == b1 && ((x >> 16)
                & 0xff) as u8 == b2 && ((x >> 24) & 0xff) as u8 == b3) by (bit_vector)
                requires
                    x == (b0 as u32) | ((b1 as u32) << 8) | ((b2 as u32) << 16) | ((b3 as u32)
                        << 24),
            ;
            assert(b@.subrange(pos as int, pos + 4) =~= u32_le(x));
        }
        Some((x, pos + 4))
    } else {
        None
    }
}

/// Read a 64-bit little-endian word.
pub fn read_u64(b: &Vec<u8>, pos: usize) -> (r: Option<(u64, usize)>)
    ensures
        match r {
            Some(t) => t.1 == pos + 8 && t.1 <= b@.len() && b@.subrange(pos as int, t.1 as int)
                == u64_le(t.0),
            None => pos + 8 > b@.len(),
        },
{
    if pos < b.len() && b.len() - pos >= 8 {
        let b0 = b[pos];
        let b1 = b[pos + 1];
        let b2 = b[pos + 2];
        let b3 = b[pos + 3];
        let b4 = b[pos + 4];
        let b5 = b[pos + 5];
        let b6 = b[pos + 6];
        let b7 = b[pos + 7];
        let x = (b0 as u64) | ((b1 as u64) << 8) | ((b2 as u64) << 16) | ((b3 as u64) << 24) | ((
        b4 as u64) << 32) | ((b5 as u64) << 40) | ((b6 as u64) << 48) | ((b7 as u64) << 56);
        proof {
            assert((x & 0xff) as u8 == b0 && ((x >> 8) & 0xff) as u8 == b1 && ((x >> 16)
                & 0xff) as u8 == b2 && ((x >> 24) & 0xff) as u8 == b3 && ((x >> 32) & 0xff) as u8
                == b4 && ((x >> 40) & 0xff) as u8 == b5 && ((x >> 48) & 0xff) as u8 == b6 && ((x
                >> 56) & 0xff) as u8 == b7) by (bit_vector)
                requires
                    x == (b0 as u64) | ((b1 as u64) << 8) | ((b2 as u64) << 16) | ((b3 as u64)
                        << 24) | ((b4 as u64) << 32) | ((b5 as u64) << 40) | ((b6 as u64) << 48) | (
                    (b7 as u64) << 56),
            ;
            assert(b@.subrange(pos as int, pos + 8) =~= u64_le(x));
        }
        Some((x, pos + 8))
    } else {
        None
    }
}

/// Read a 32-bit flag word.
pub fn read_i32(b: &Vec<u8>, pos: usize) -> (r: Option<(i32, usize)>)
    ensures
        match r {
            Some(t) => t.1 == pos + 4 && t.1 <= b@.len() && b@.subrange(pos as int, t.1 as int)
                == i32_le(t.0),
            None => pos + 4 > b@.len(),
        },
{
    match read_u32(b, pos) {
        Some((x, p2)) => {
            let v = x as i32;
            proof {
                assert(v as u32 == x) by (bit_vector)
                    requires
                        v == x as i32,
                ;
            }
            Some((v, p2))
        },
        None => None,
    }
}

/// Read a length-prefixed byte string.
pub fn read_lp(b: &Vec<u8>, pos: usize) -> (r: Option<(Vec<u8>, usize)>)
    ensures
        match r {
            Some(t) => {
                &&& t.1 == pos + 8 + t.0@.len()
                &&& t.1 <= b@.len()
                &&& b@.subrange(pos as int, pos + 8) == u64_le(t.0@.len() as u64)
                &&& b@.subrange(pos + 8, t.1 as int) == t.0@
            },
            None => forall|s: Seq<u8>|
                pos + 8 + s.len() <= b@.len() ==> b@.subrange(pos as int, pos + 8) != u64_le(
                    #[trigger] s.len() as u64,
                ),
        },
{
    match read_u64(b, pos) {
        Some((n, p2)) => {
            if n <= (b.len() - p2) as u64 {
                let len = n as usize;
                let v = crate::chunker::copy_range(b, p2, p2 + len);
                proof {
                    assert(v@ == b@.subrange(p2 as int, p2 + len));
                }
                Some((v, p2 + len))
            } else {
                proof {
                    assert forall|s: Seq<u8>|
                        pos + 8 + s.len() <= b@.len() implies b@.subrange(pos as int, pos + 8)
                        != u64_le(#[trigger] s.len() as u64) by {
                        if b@.subrange(pos as int, pos + 8) == u64_le(s.len() as u64) {
                            lemma_u64_le_inj(n, s.len() as u64);
                        }
                    }
                }
                None
            }
        },
        None => {
            proof {
                assert forall|s: Seq<u8>|
                    pos + 8 + s.len() <= b@.len() implies b@.subrange(pos as int, pos + 8)
                    != u64_le(#[trigger] s.len() as u64) by {}
            }
            None
        },
    }
}

/// The variant tag an encoded payload starts with.
pub open spec fn payload_tag(m: PayloadModel) -> u32 {
    match m {
        PayloadModel::SignalMessage(_) => 0,
        PayloadModel::Envelope(_) => 1,
        PayloadModel::KeyRequest(_) => 2,
        PayloadModel::KeyResponse(_) => 3,
    }
}

/// Every encoded payload starts with its four tag bytes.
pub proof fn lemma_payload_bytes_tag(m: PayloadModel)
    ensures
        payload_bytes(m).len() >= 12,
        payload_bytes(m).subrange(0, 4) =~= u32_le(payload_tag(m)),
{
}

/// How an encoded ciphertext message slices up.
proof fn lemma_sm_decompose(m: crate::payload::SignalMessageModel, b: Seq<u8>)
    requires
        b == payload_bytes(PayloadModel::SignalMessage(m)),
    ensures
        ({
            let a = m.destination_service_id.len() as int;
            let c = m.content.len() as int;
            &&& b.len() == 32 + a + c
            &&& b.subrange(4, 8) =~= u32_le(m.message_type)
            &&& b.subrange(8, 12) =~= u32_le(m.destination_device_id)
            &&& b.subrange(12, 16) =~= u32_le(m.destination_registration_id)
            &&& b.subrange(16, 24) =~= u64_le(m.destination_service_id.len() as u64)
            &&& b.subrange(24, 24 + a) =~= m.destination_service_id
            &&& b.subrange(24 + a, 32 + a) =~= u64_le(m.content.len() as u64)
            &&& b.subrange(32 + a, 32 + a + c) =~= m.content
        }),
{
}

/// How an encoded envelope slices up.
proof fn lemma_env_decompose(m: crate::payload::EnvelopeModel, b: Seq<u8>)
    requires
        b == payload_bytes(PayloadModel::Envelope(m)),
    ensures
        ({
            let a = m.source_service_id.len() as int;
            let d = m.destination_service_id.len() as int;
            let c = m.content.len() as int;
            &&& b.len() == 44 + a + d + c
            &&& b.subrange(4, 8) =~= u32_le(m.envelope_type)
            &&& b.subrange(8, 16) =~= u64_le(m.source_service_id.len() as u64)
            &&& b.subrange(16, 16 + a) =~= m.source_service_id
            &&& b.subrange(16 + a, 20 + a) =~= u32_le(m.source_device_id)
            &&& b.subrange(20 + a, 28 + a) =~= u64_le(m.destination_service_id.len() as u64)
            &&& b.subrange(28 + a, 28 + a + d) =~= m.destination_service_id
            &&& b.subrange(28 + a + d, 36 + a + d) =~= u64_le(m.content.len() as u64)
            &&& b.subrange(36 + a + d, 36 + a + d + c) =~= m.content
            &&& b.subrange(36 + a + d + c, 44 + a + d + c) =~= u64_le(m.timestamp)
        }),
{
}

/// How an encoded key request slices up.
proof fn lemma_kr_decompose(sid: Seq<u8>, b: Seq<u8>)
    requires
        b == payload_bytes(PayloadModel::KeyRequest(sid)),
    ensures
        b.len() == 12 + sid.len(),
        b.subrange(4, 12) =~= u64_le(sid.len() as u64),
        b.subrange(12, 12 + sid.len() as int) =~= sid,
{
}

/// How an encoded key response slices up.
proof fn lemma_kresp_decompose(m: crate::payload::KeyResponseModel, b: Seq<u8>)
    requires
        b == payload_bytes(PayloadModel::KeyResponse(m)),
    ensures
        ({
            let s = m.service_id.len() as int;
            let k = m.identity_key.len() as int;
            &&& b.len() == 28 + s + k + items_body(m.items).len()
            &&& b.subrange(4, 12) =~= u64_le(m.service_id.len() as u64)
            &&& b.subrange(12, 12 + s) =~= m.service_id
            &&& b.subrange(12 + s, 20 + s) =~= u64_le(m.identity_key.len() as u64)
            &&& b.subrange(20 + s, 20 + s + k) =~= m.identity_key
            &&& b.subrange(20 + s + k, 28 + s + k) =~= u64_le(m.items.len() as u64)
            &&& b.subrange(28 + s + k, b.len() as int) =~= items_body(m.items)
        }),
{
}

/// An item list body read from the front: the first item, then the rest.
proof fn lemma_items_body_first(its: Seq<PreKeyItemModel>)
    requires
        its.len() > 0,
    ensures
        items_body(its) =~= item_bytes(its.first()) + items_body(its.drop_first()),
    decreases its.len(),
{
    if its.len() == 1 {
        assert(its.drop_last() =~= Seq::<PreKeyItemModel>::empty());
        assert(its.drop_first() =~= Seq::<PreKeyItemModel>::empty());
        assert(its.last() == its.first());
    } else {
        lemma_items_body_first(its.drop_last());
        assert(its.drop_last().first() == its.first());
        assert(its.drop_last().drop_first() =~= its.drop_first().drop_last());
        assert(items_body(its) == items_body(its.drop_last()) + item_bytes(its.last()));
        assert(items_body(its.drop_first()) == items_body(its.drop_first().drop_last())
            + item_bytes(its.drop_first().last()));
        assert(its.drop_first().last() == its.last());
        assert((item_bytes(its.first()) + items_body(its.drop_first().drop_last())) + item_bytes(
            its.last(),
        ) =~= item_bytes(its.first()) + (items_body(its.drop_first().drop_last()) + item_bytes(
            its.last(),
        )));
    }
}

/// Every item's bundle is small enough for its length prefix.
pub open spec fn items_bounded(its: Seq<PreKeyItemModel>) -> bool {
    forall|i: int| 0 <= i < its.len() ==> (#[trigger] its[i]).bundle.len() <= u64::MAX
}

/// A payload model whose byte fields all fit their length prefixes; every
/// payload held in memory is bounded.
pub open spec fn payload_wf(m: PayloadModel) -> bool {
    match m {
        PayloadModel::SignalMessage(sm) => sm.destination_service_id.len() <= u64::MAX
            && sm.content.len() <= u64::MAX,
        PayloadModel::Envelope(e) => e.source_service_id.len() <= u64::MAX
            && e.destination_service_id.len() <= u64::MAX && e.content.len() <= u64::MAX,
        PayloadModel::KeyRequest(sid) => sid.len() <= u64::MAX,
        PayloadModel::KeyResponse(kr) => kr.service_id.len() <= u64::MAX && kr.identity_key.len()
            <= u64::MAX && kr.items.len() <= u64::MAX && items_bounded(kr.items),
    }
}

/// An encoded item determines itself and what follows it.
proof fn lemma_item_prefix_det(i1: PreKeyItemModel, i2: PreKeyItemModel, r1: Seq<u8>, r2: Seq<u8>)
    requires
        item_bytes(i1) + r1 == item_bytes(i2) + r2,
        i1.bundle.len() <= u64::MAX,
        i2.bundle.len() <= u64::MAX,
    ensures
        i1 == i2,
        r1 == r2,
{
    let l = item_bytes(i1) + r1;
    assert(l.subrange(0, 4) =~= u32_le(i1.device_id));
    assert(l.subrange(0, 4) =~= u32_le(i2.device_id));
    lemma_u32_le_inj(i1.device_id, i2.device_id);
    assert(l.subrange(4, 8) =~= u32_le(i1.registration_id));
    assert(l.subrange(4, 8) =~= u32_le(i2.registration_id));
    lemma_u32_le_inj(i1.registration_id, i2.registration_id);
    assert(l.subrange(8, 16) =~= u64_le(i1.bundle.len() as u64));
    assert(l.subrange(8, 16) =~= u64_le(i2.bundle.len() as u64));
    lemma_u64_le_inj(i1.bundle.len() as u64, i2.bundle.len() as u64);
    assert(i1.bundle.len() == i2.bundle.len());
    let n = i1.bundle.len() as int;
    assert(l.subrange(16, 16 + n) =~= i1.bundle);
    assert(l.subrange(16, 16 + n) =~= i2.bundle);
    assert(r1 =~= l.skip(16 + n));
    assert(r2 =~= l.skip(16 + n));
}

/// A parsed item prefix pins down the same prefix of any list the buffer
/// encodes, and leaves exactly the remaining items' bytes.
proof fn lemma_items_body_split(q: Seq<PreKeyItemModel>, p: Seq<PreKeyItemModel>, rest: Seq<u8>)
    requires
        items_body(p) + rest == items_body(q),
        p.len() <= q.len(),
        items_bounded(p),
        items_bounded(q),
    ensures
        p == q.take(p.len() as int),
        rest == items_body(q.skip(p.len() as int)),
    decreases p.len(),
{
    if p.len() == 0 {
        assert(items_body(p) =~= Seq::<u8>::empty());
        assert(rest =~= items_body(q));
        assert(p =~= q.take(0));
        assert(q.skip(0) =~= q);
    } else {
        assert(q.len() > 0);
        lemma_items_body_first(p);
        lemma_items_body_first(q);
        assert((item_bytes(p.first()) + items_body(p.drop_first())) + rest =~= item_bytes(
            p.first(),
        ) + (items_body(p.drop_first()) + rest));
        lemma_item_prefix_det(
            p.first(),
            q.first(),
            items_body(p.drop_first()) + rest,
            items_body(q.drop_first()),
        );
        assert(items_bounded(p.drop_first()) && items_bounded(q.drop_first())) by {
            assert(forall|j: int|
                0 <= j < p.drop_first().len() ==> p.drop_first()[j] == p[j + 1]);
            assert(forall|j: int|
                0 <= j < q.drop_first().len() ==> q.drop_first()[j] == q[j + 1]);
        }
        lemma_items_body_split(q.drop_first(), p.drop_first(), rest);
        assert forall|j: int| 0 <= j < p.len() implies p[j] == q.take(p.len() as int)[j] by {
            if j == 0 {
            } else {
                assert(p[j] == p.drop_first()[j - 1]);
                assert(p.drop_first()[j - 1] == q.drop_first().take(p.len() - 1)[j - 1]);
                assert(q.drop_first().take(p.len() - 1)[j - 1] == q[j]);
            }
        }
        assert(p =~= q.take(p.len() as int));
        assert(q.drop_first().skip(p.len() - 1) =~= q.skip(p.len() as int));
    }
}

/// Serialized size of an empty chunk list: its 64-bit length prefix.
pub const EMPTY_VEC_SIZE: usize = 8;

/// Serialized size of a chunk with an empty payload: the payload's 64-bit
/// length prefix plus the 32-bit flag word.
pub const EMPTY_DENIMCHUNK_SIZE: usize = 12;

/// Serialized size of a chunk list holding one chunk with an empty payload.
pub const DENIMARRAY_WITH_EMPTY_DENIMCHUNK_SIZE: usize = 20;

/// Append the little-endian bytes of a 32-bit word.
pub fn push_u32(out: &mut Vec<u8>, x: u32)
    ensures
        final(out)@ == old(out)@ + u32_le(x),
{
    proof {
        assert((x & 0xff) <= 0xff && ((x >> 8) & 0xff) <= 0xff && ((x >> 16) & 0xff) <= 0xff && ((x
            >> 24) & 0xff) <= 0xff) by (bit_vector);
    }
    out.push((x & 0xff) as u8);
    out.push(((x >> 8) & 0xff) as u8);
    out.push(((x >> 16) & 0xff) as u8);
    out.push(((x >> 24) & 0xff) as u8);
    proof {
        assert(out@ =~= old(out)@ + u32_le(x));
    }
}

/// Append the little-endian bytes of a 64-bit word.
pub fn push_u64(out: &mut Vec<u8>, x: u64)
    ensures
        final(out)@ == old(out)@ + u64_le(x),
{
    proof {
        assert((x & 0xff) <= 0xff && ((x >> 8) & 0xff) <= 0xff && ((x >> 16) & 0xff) <= 0xff && ((x
            >> 24) & 0xff) <= 0xff && ((x >> 32) & 0xff) <= 0xff && ((x >> 40) & 0xff) <= 0xff && ((
        x >> 48) & 0xff) <= 0xff && ((x >> 56) & 0xff) <= 0xff) by (bit_vector);
    }
    out.push((x & 0xff) as u8);
    out.push(((x >> 8) & 0xff) as u8);
    out.push(((x >> 16) & 0xff) as u8);
    out.push(((x >> 24) & 0xff) as u8);
    out.push(((x >> 32) & 0xff) as u8);
    out.push(((x >> 40) & 0xff) as u8);
    out.push(((x >> 48) & 0xff) as u8);
    out.push(((x >> 56) & 0xff) as u8);
    proof {
        assert(out@ =~= old(out)@ + u64_le(x));
    }
}

/// Append the little-endian bytes of a flag word.
pub fn push_i32(out: &mut Vec<u8>, x: i32)
    ensures
        final(out)@ == old(out)@ + i32_le(x),
{
    push_u32(out, x as u32);
}

/// Append a length-prefixed byte string.
pub fn push_lp(out: &mut Vec<u8>, s: &Vec<u8>)
    ensures
        final(out)@ == old(out)@ + lp_bytes(s@),
{
    push_u64(out, s.len() as u64);
    let ghost mid = out@;
    let mut i: usize = 0;
    while i < s.len()
        invariant
            0 <= i <= s@.len(),
            out@ == mid + s@.take(i as int),
        decreases s@.len() - i,
    {
        proof {
            assert((mid + s@.take(i as int)).push(s@[i as int]) =~= mid + s@.take(i + 1));
        }
        out.push(s[i]);
        i = i + 1;
    }
    proof {
        assert(s@.take(s@.len() as int) =~= s@);
        assert(mid + s@ =~= old(out)@ + lp_bytes(s@));
    }
}

/// Append one encoded chunk.
pub fn push_chunk(out: &mut Vec<u8>, c: &DenimChunk)
    ensures
        final(out)@ == old(out)@ + chunk_bytes(*c),
{
    push_lp(out, &c.chunk);
    push_i32(out, c.flags);
    proof {
        assert(out@ =~= old(out)@ + chunk_bytes(*c));
    }
}

pub proof fn lemma_chunks_body_push(cs: Seq<DenimChunk>, c: DenimChunk)
    ensures
        chunks_body(cs.push(c)) == chunks_body(cs) + chunk_bytes(c),
{
    assert(cs.push(c).drop_last() =~= cs);
    assert(cs.push(c).last() == c);
}

/// The encoded chunk list is exactly as long as the budget arithmetic says.
pub proof fn lemma_chunks_bytes_len(cs: Seq<DenimChunk>)
    ensures
        chunks_bytes(cs).len() == chunks_encoded_len(cs),
    decreases cs.len(),
{
    if cs.len() == 0 {
    } else {
        lemma_chunks_bytes_len(cs.drop_last());
    }
}

/// Encode a chunk list: a 64-bit count, then each chunk.
pub fn encode_chunks(chunks: &Vec<DenimChunk>) -> (r: Vec<u8>)
    ensures
        r@ == chunks_bytes(chunks@),
        r@.len() == chunks_encoded_len(chunks@),
{
    let mut out: Vec<u8> = Vec::new();
    push_u64(&mut out, chunks.len() as u64);
    let ghost mid = out@;
    let mut i: usize = 0;
    proof {
        assert(chunks_body(chunks@.take(0)) =~= Seq::<u8>::empty());
        assert(out@ =~= mid + chunks_body(chunks@.take(0)));
    }
    while i < chunks.len()
        invariant
            0 <= i <= chunks@.len(),
            out@ == mid + chunks_body(chunks@.take(i as int)),
        decreases chunks@.len() - i,
    {
        proof {
            assert(chunks@.take(i + 1) =~= chunks@.take(i as int).push(chunks@[i as int]));
            lemma_chunks_body_push(chunks@.take(i as int), chunks@[i as int]);
        }
        push_chunk(&mut out, &chunks[i]);
        proof {
            assert(out@ =~= mid + chunks_body(chunks@.take(i + 1)));
        }
        i = i + 1;
    }
    proof {
        assert(chunks@.take(chunks@.len() as int) =~= chunks@);
        assert(out@ =~= chunks_bytes(chunks@));
        lemma_chunks_bytes_len(chunks@);
    }
    out
}

/// Read an encoded optional 32-bit word; a failure means no encoded option
/// sits at this position.
pub fn read_opt_u32(b: &Vec<u8>, pos: usize) -> (r: Option<(Option<u32>, usize)>)
    ensures
        match r {
            Some(t) => pos < t.1 && t.1 <= b@.len() && b@.subrange(pos as int, t.1 as int)
                == opt_u32_bytes(t.0),
            None => forall|x: Option<u32>|
                pos + opt_u32_bytes(x).len() <= b@.len() ==> b@.subrange(
                    pos as int,
                    pos + opt_u32_bytes(x).len(),
                ) != #[trigger] opt_u32_bytes(x),
        },
{
    if pos < b.len() {
        let tag = b[pos];
        if tag == 0 {
            proof {
                assert(b@.subrange(pos as int, pos + 1) =~= opt_u32_bytes(None::<u32>));
            }
            Some((None, pos + 1))
        } else if tag == 1 {
            match read_u32(b, pos + 1) {
                Some((v, p2)) => {
                    proof {
                        assert(b@.subrange(pos as int, p2 as int) =~= opt_u32_bytes(Some(v)));
                    }
                    Some((Some(v), p2))
                },
                None => {
                    proof {
                        assert forall|x: Option<u32>|
                            pos + opt_u32_bytes(x).len() <= b@.len() implies b@.subrange(
                            pos as int,
                            pos + opt_u32_bytes(x).len(),
                        ) != #[trigger] opt_u32_bytes(x) by {
                            match x {
                                None => {
                                    if b@.subrange(pos as int, pos + 1) == opt_u32_bytes(x) {
                                        assert(b@[pos as int] == opt_u32_bytes(x)[0]);
                                        assert(opt_u32_bytes(None::<u32>)[0] == 0u8);
                                    }
                                },
                                Some(_) => {
                                },
                            }
                        }
                    }
                    None
                },
            }
        } else {
            proof {
                assert forall|x: Option<u32>|
                    pos + opt_u32_bytes(x).len() <= b@.len() implies b@.subrange(
                    pos as int,
                    pos + opt_u32_bytes(x).len(),
                ) != #[trigger] opt_u32_bytes(x) by {
                    let l = opt_u32_bytes(x).len() as int;
                    if b@.subrange(pos as int, pos + l) == opt_u32_bytes(x) {
                        assert(b@[pos as int] == opt_u32_bytes(x)[0]);
                        match x {
                            None => {
                                assert(opt_u32_bytes(x)[0] == 0u8);
                            },
                            Some(v) => {
                                assert(opt_u32_bytes(x)[0] == 1u8);
                            },
                        }
                    }
                }
            }
            None
        }
    } else {
        None
    }
}

/// An encoded optional word determines itself and what follows it.
pub proof fn lemma_opt_prefix_det(x1: Option<u32>, x2: Option<u32>, r1: Seq<u8>, r2: Seq<u8>)
    requires
        opt_u32_bytes(x1) + r1 == opt_u32_bytes(x2) + r2,
    ensures
        x1 == x2,
        r1 == r2,
{
    let l = opt_u32_bytes(x1) + r1;
    assert(l[0] == opt_u32_bytes(x1)[0]);
    assert(l[0] == opt_u32_bytes(x2)[0]);
    match (x1, x2) {
        (None, None) => {
            assert(r1 =~= l.skip(1));
            assert(r2 =~= l.skip(1));
        },
        (Some(v1), Some(v2)) => {
            assert(l.subrange(1, 5) =~= u32_le(v1));
            assert(l.subrange(1, 5) =~= u32_le(v2));
            lemma_u32_le_inj(v1, v2);
            assert(r1 =~= l.skip(5));
            assert(r2 =~= l.skip(5));
        },
        (None, Some(v2)) => {
            assert(opt_u32_bytes(x1)[0] == 0u8);
            assert(opt_u32_bytes(x2)[0] == 1u8);
        },
        (Some(v1), None) => {
            assert(opt_u32_bytes(x1)[0] == 1u8);
            assert(opt_u32_bytes(x2)[0] == 0u8);
        },
    }
}

/// An encoded chunk determines its payload, its flag, and what follows it.
pub proof fn lemma_chunk_prefix_det(c1: DenimChunk, c2: DenimChunk, r1: Seq<u8>, r2: Seq<u8>)
    requires
        chunk_bytes(c1) + r1 == chunk_bytes(c2) + r2,
    ensures
        c1.chunk@ == c2.chunk@,
        c1.flags == c2.flags,
        r1 == r2,
{
    assert(c1.chunk.len() == c1.chunk@.len());
    assert(c2.chunk.len() == c2.chunk@.len());
    let l = chunk_bytes(c1) + r1;
    assert(l.subrange(0, 8) =~= u64_le(c1.chunk@.len() as u64));
    assert(l.subrange(0, 8) =~= u64_le(c2.chunk@.len() as u64));
    lemma_u64_le_inj(c1.chunk@.len() as u64, c2.chunk@.len() as u64);
    let n = c1.chunk@.len() as int;
    assert(l.subrange(8, 8 + n) =~= c1.chunk@);
    assert(l.subrange(8, 8 + n) =~= c2.chunk@);
    assert(l.subrange(8 + n, 12 + n) =~= i32_le(c1.flags));
    assert(l.subrange(8 + n, 12 + n) =~= i32_le(c2.flags));
    lemma_i32_le_inj(c1.flags, c2.flags);
    assert(r1 =~= l.skip(12 + n));
    assert(r2 =~= l.skip(12 + n));
}

/// A chunk-list body read from the front: the first chunk, then the rest.
pub proof fn lemma_chunks_body_first(cs: Seq<DenimChunk>)
    requires
        cs.len() > 0,
    ensures
        chunks_body(cs) =~= chunk_bytes(cs.first()) + chunks_body(cs.drop_first()),
    decreases cs.len(),
{
    if cs.len() == 1 {
        assert(cs.drop_last() =~= Seq::<DenimChunk>::empty());
        assert(cs.drop_first() =~= Seq::<DenimChunk>::empty());
        assert(cs.last() == cs.first());
    } else {
        lemma_chunks_body_first(cs.drop_last());
        assert(cs.drop_last().first() == cs.first());
        assert(cs.drop_last().drop_first() =~= cs.drop_first().drop_last());
        assert(chunks_body(cs) == chunks_body(cs.drop_last()) + chunk_bytes(cs.last()));
        assert(chunks_body(cs.drop_first()) == chunks_body(cs.drop_first().drop_last())
            + chunk_bytes(cs.drop_first().last()));
        assert(cs.drop_first().last() == cs.last());
        assert((chunk_bytes(cs.first()) + chunks_body(cs.drop_first().drop_last()))
            + chunk_bytes(cs.last()) =~= chunk_bytes(cs.first()) + (chunks_body(
            cs.drop_first().drop_last(),
        ) + chunk_bytes(cs.last())));
    }
}

/// Same chunk views, same body bytes.
pub proof fn lemma_chunks_body_congruence(p: Seq<DenimChunk>, q: Seq<DenimChunk>)
    requires
        p.len() == q.len(),
        forall|i: int|
            0 <= i < p.len() ==> (#[trigger] p[i]).chunk@ == q[i].chunk@ && p[i].flags
                == q[i].flags,
    ensures
        chunks_body(p) == chunks_body(q),
    decreases p.len(),
{
    if p.len() > 0 {
        assert(forall|i: int|
            0 <= i < p.drop_last().len() ==> (#[trigger] p.drop_last()[i]) == p[i]
                && q.drop_last()[i] == q[i]);
        lemma_chunks_body_congruence(p.drop_last(), q.drop_last());
        assert(p.last().chunk@ == q.last().chunk@ && p.last().flags == q.last().flags);
        assert(chunk_bytes(p.last()) == chunk_bytes(q.last()));
    }
}

/// A parsed chunk prefix pins down, view for view, the same prefix of any
/// chunk list the buffer encodes, and leaves exactly the remaining chunks'
/// bytes ahead of the same tail.
pub proof fn lemma_chunks_body_split(
    q: Seq<DenimChunk>,
    p: Seq<DenimChunk>,
    r1: Seq<u8>,
    r2: Seq<u8>,
)
    requires
        chunks_body(p) + r1 == chunks_body(q) + r2,
        p.len() <= q.len(),
    ensures
        forall|i: int|
            0 <= i < p.len() ==> (#[trigger] p[i]).chunk@ == q[i].chunk@ && p[i].flags
                == q[i].flags,
        r1 == chunks_body(q.skip(p.len() as int)) + r2,
    decreases p.len(),
{
    if p.len() == 0 {
        assert(chunks_body(p) =~= Seq::<u8>::empty());
        assert(r1 =~= chunks_body(q) + r2);
        assert(q.skip(0) =~= q);
    } else {
        assert(q.len() > 0);
        lemma_chunks_body_first(p);
        lemma_chunks_body_first(q);
        assert((chunk_bytes(p.first()) + chunks_body(p.drop_first())) + r1 =~= chunk_bytes(
            p.first(),
        ) + (chunks_body(p.drop_first()) + r1));
        assert((chunk_bytes(q.first()) + chunks_body(q.drop_first())) + r2 =~= chunk_bytes(
            q.first(),
        ) + (chunks_body(q.drop_first()) + r2));
        lemma_chunk_prefix_det(
            p.first(),
            q.first(),
            chunks_body(p.drop_first()) + r1,
            chunks_body(q.drop_first()) + r2,
        );
        lemma_chunks_body_split(q.drop_first(), p.drop_first(), r1, r2);
        assert forall|i: int| 0 <= i < p.len() implies (#[trigger] p[i]).chunk@ == q[i].chunk@
            && p[i].flags == q[i].flags by {
            if i > 0 {
                assert(p.drop_first()[i - 1].chunk@ == q.drop_first()[i - 1].chunk@
                    && p.drop_first()[i - 1].flags == q.drop_first()[i - 1].flags);
                assert(p.drop_first()[i - 1] == p[i] && q.drop_first()[i - 1] == q[i]);
            }
        }
        assert(q.drop_first().skip(p.len() - 1) =~= q.skip(p.len() as int));
    }
}

/// Append an encoded optional 32-bit word.
pub fn push_opt_u32(out: &mut Vec<u8>, x: &Option<u32>)
    ensures
        final(out)@ == old(out)@ + opt_u32_bytes(*x),
{
    match x {
        None => {
            out.push(0);
            proof {
                assert(out@ =~= old(out)@ + opt_u32_bytes(None::<u32>));
            }
        },
        Some(v) => {
            out.push(1);
            push_u32(out, *v);
            proof {
                assert(out@ =~= old(out)@ + opt_u32_bytes(Some(*v)));
            }
        },
    }
}

proof fn lemma_items_body_push(its: Seq<PreKeyItemModel>, it: PreKeyItemModel)
    ensures
        items_body(its.push(it)) == items_body(its) + item_bytes(it),
{
    assert(its.push(it).drop_last() =~= its);
    assert(its.push(it).last() == it);
}

/// Encode a deniable payload.
pub fn encode_payload(p: &DeniablePayload) -> (r: Vec<u8>)
    ensures
        r@ == payload_bytes(p.model()),
{
    let mut out: Vec<u8> = Vec::new();
    match p {
        DeniablePayload::SignalMessage(sm) => {
            push_u32(&mut out, 0);
            push_u32(&mut out, sm.message_type);
            push_u32(&mut out, sm.destination_device_id);
            push_u32(&mut out, sm.destination_registration_id);
            push_lp(&mut out, &sm.destination_service_id);
            push_lp(&mut out, &sm.content);
            proof {
                assert(out@ =~= payload_bytes(p.model()));
            }
        },
        DeniablePayload::Envelope(e) => {
            push_u32(&mut out, 1);
            push_u32(&mut out, e.envelope_type);
            push_lp(&mut out, &e.source_service_id);
            push_u32(&mut out, e.source_device_id);
            push_lp(&mut out, &e.destination_service_id);
            push_lp(&mut out, &e.content);
            push_u64(&mut out, e.timestamp);
            proof {
                assert(out@ =~= payload_bytes(p.model()));
            }
        },
        DeniablePayload::KeyRequest(kr) => {
            push_u32(&mut out, 2);
            push_lp(&mut out, &kr.service_id);
            proof {
                assert(out@ =~= payload_bytes(p.model()));
            }
        },
        DeniablePayload::KeyResponse(kr) => {
            push_u32(&mut out, 3);
            push_lp(&mut out, &kr.service_id);
            push_lp(&mut out, &kr.identity_key);
            push_u64(&mut out, kr.items.len() as u64);
            let ghost its = kr.items@.map_values(|it: crate::payload::PreKeyItem| it.model());
            let ghost mid = out@;
            let mut i: usize = 0;
            proof {
                assert(items_body(its.take(0)) =~= Seq::<u8>::empty());
                assert(out@ =~= mid + items_body(its.take(0)));
            }
            while i < kr.items.len()
                invariant
                    0 <= i <= kr.items@.len(),
                    its == kr.items@.map_values(|it: crate::payload::PreKeyItem| it.model()),
                    its.len() == kr.items@.len(),
                    out@ == mid + items_body(its.take(i as int)),
                decreases kr.items@.len() - i,
            {
                proof {
                    assert(its.take(i + 1) =~= its.take(i as int).push(its[i as int]));
                    lemma_items_body_push(its.take(i as int), its[i as int]);
                }
                let it = &kr.items[i];
                push_u32(&mut out, it.device_id);
                push_u32(&mut out, it.registration_id);
                push_lp(&mut out, &it.bundle);
                proof {
                    assert(its[i as int] == kr.items@[i as int].model());
                    assert(out@ =~= mid + items_body(its.take(i + 1)));
                }
                i = i + 1;
            }
            proof {
                assert(its.take(its.len() as int) =~= its);
                assert(out@ =~= payload_bytes(p.model()));
            }
        },
    }
    out
}

/// Decode a deniable payload.
///
/// Returns the payload whose encoding is exactly the given bytes, and
/// `None` precisely when no bounded payload encodes to them — the caller
/// then knows the accumulated chunks were corrupt, not merely oddly split.
pub fn decode_payload(b: &Vec<u8>) -> (r: Option<DeniablePayload>)
    ensures
        match r {
            Some(p) => payload_bytes(p.model()) == b@ && payload_wf(p.model()),
            None => forall|m: PayloadModel|
                payload_wf(m) ==> b@ != #[trigger] payload_bytes(m),
        },
{
    let tag = match read_u32(b, 0) {
        Some(t) => t.0,
        None => {
            proof {
                assert forall|m: PayloadModel| payload_wf(m) implies b@ != #[trigger] payload_bytes(
                    m,
                ) by {
                    lemma_payload_bytes_tag(m);
                }
            }
            return None;
        },
    };
    if tag == 0 {
        decode_signal_message(b)
    } else if tag == 1 {
        decode_envelope(b)
    } else if tag == 2 {
        decode_key_request(b)
    } else if tag == 3 {
        decode_key_response(b)
    } else {
        proof {
            assert forall|m: PayloadModel| payload_wf(m) implies b@ != #[trigger] payload_bytes(
                m,
            ) by {
                if b@ == payload_bytes(m) {
                    lemma_payload_bytes_tag(m);
                    assert(b@.subrange(0, 4) == u32_le(payload_tag(m)));
                    lemma_u32_le_inj(payload_tag(m), tag);
                }
            }
        }
        None
    }
}

/// Decode the body of a ciphertext-message payload.
fn decode_signal_message(b: &Vec<u8>) -> (r: Option<DeniablePayload>)
    requires
        b@.len() >= 4,
        b@.subrange(0, 4) == u32_le(0),
    ensures
        match r {
            Some(p) => payload_bytes(p.model()) == b@ && payload_wf(p.model()),
            None => forall|m: PayloadModel|
                payload_wf(m) ==> b@ != #[trigger] payload_bytes(m),
        },
{
    let parsed: Option<(u32, u32, u32, Vec<u8>, Vec<u8>, usize)> = match read_u32(b, 4) {
        Some((mt, p1)) => match read_u32(b, p1) {
            Some((ddi, p2)) => match read_u32(b, p2) {
                Some((dri, p3)) => match read_lp(b, p3) {
                    Some((dsid, p4)) => match read_lp(b, p4) {
                        Some((content, p5)) => Some((mt, ddi, dri, dsid, content, p5)),
                        None => None,
                    },
                    None => None,
                },
                None => None,
            },
            None => None,
        },
        None => None,
    };
    match parsed {
        Some((mt, ddi, dri, dsid, content, end)) if end == b.len() => {
            let p = DeniablePayload::SignalMessage(
                crate::payload::SignalMessage {
                    message_type: mt,
                    destination_device_id: ddi,
                    destination_registration_id: dri,
                    destination_service_id: dsid,
                    content: content,
                },
            );
            proof {
                assert(payload_bytes(p.model()) =~= b@);
            }
            Some(p)
        },
        _ => {
            proof {
                assert forall|m: PayloadModel| payload_wf(m) implies b@ != #[trigger] payload_bytes(
                    m,
                ) by {
                    if b@ == payload_bytes(m) {
                        lemma_payload_bytes_tag(m);
                        lemma_u32_le_inj(payload_tag(m), 0);
                        let sm = m->SignalMessage_0;
                        lemma_sm_decompose(sm, b@);
                        let a = sm.destination_service_id.len() as int;
                        let c = sm.content.len() as int;
                        lemma_u64_le_inj_at(b@, 16, sm.destination_service_id.len() as u64);
                        lemma_u64_le_inj_at(b@, 24 + a, sm.content.len() as u64);
                    }
                }
            }
            None
        },
    }
}

/// Decode the body of an envelope payload.
#[verifier::rlimit(80)]
fn decode_envelope(b: &Vec<u8>) -> (r: Option<DeniablePayload>)
    requires
        b@.len() >= 4,
        b@.subrange(0, 4) == u32_le(1),
    ensures
        match r {
            Some(p) => payload_bytes(p.model()) == b@ && payload_wf(p.model()),
            None => forall|m: PayloadModel|
                payload_wf(m) ==> b@ != #[trigger] payload_bytes(m),
        },
{
    let parsed: Option<(u32, Vec<u8>, u32, Vec<u8>, Vec<u8>, u64, usize)> = match read_u32(b, 4) {
        Some((et, p1)) => match read_lp(b, p1) {
            Some((ssid, p2)) => match read_u32(b, p2) {
                Some((sdi, p3)) => match read_lp(b, p3) {
                    Some((dsid, p4)) => match read_lp(b, p4) {
                        Some((content, p5)) => match read_u64(b, p5) {
                            Some((ts, p6)) => Some((et, ssid, sdi, dsid, content, ts, p6)),
                            None => None,
                        },
                        None => None,
                    },
                    None => None,
                },
                None => None,
            },
            None => None,
        },
        None => None,
    };
    match parsed {
        Some((et, ssid, sdi, dsid, content, ts, end)) if end == b.len() => {
            let p = DeniablePayload::Envelope(
                crate::payload::EnvelopeData {
                    envelope_type: et,
                    source_service_id: ssid,
                    source_device_id: sdi,
                    destination_service_id: dsid,
                    content: content,
                    timestamp: ts,
                },
            );
            proof {
                assert(payload_bytes(p.model()) =~= b@);
            }
            Some(p)
        },
        _ => {
            proof {
                assert forall|m: PayloadModel| payload_wf(m) implies b@ != #[trigger] payload_bytes(
                    m,
                ) by {
                    if b@ == payload_bytes(m) {
                        lemma_payload_bytes_tag(m);
                        lemma_u32_le_inj(payload_tag(m), 1);
                        let e = m->Envelope_0;
                        lemma_env_decompose(e, b@);
                        let a = e.source_service_id.len() as int;
                        let d = e.destination_service_id.len() as int;
                        let c = e.content.len() as int;
                        lemma_u64_le_inj_at(b@, 8, e.source_service_id.len() as u64);
                        lemma_u64_le_inj_at(b@, 20 + a, e.destination_service_id.len() as u64);
                        lemma_u64_le_inj_at(b@, 28 + a + d, e.content.len() as u64);
                    }
                }
            }
            None
        },
    }
}

/// Decode the body of a key-request payload.
fn decode_key_request(b: &Vec<u8>) -> (r: Option<DeniablePayload>)
    requires
        b@.len() >= 4,
        b@.subrange(0, 4) == u32_le(2),
    ensures
        match r {
            Some(p) => payload_bytes(p.model()) == b@ && payload_wf(p.model()),
            None => forall|m: PayloadModel|
                payload_wf(m) ==> b@ != #[trigger] payload_bytes(m),
        },
{
    let parsed: Option<(Vec<u8>, usize)> = read_lp(b, 4);
    match parsed {
        Some((sid, end)) if end == b.len() => {
            let p = DeniablePayload::KeyRequest(crate::payload::PreKeyRequest { service_id: sid });
            proof {
                assert(payload_bytes(p.model()) =~= b@);
            }
            Some(p)
        },
        _ => {
            proof {
                assert forall|m: PayloadModel| payload_wf(m) implies b@ != #[trigger] payload_bytes(
                    m,
                ) by {
                    if b@ == payload_bytes(m) {
                        lemma_payload_bytes_tag(m);
                        lemma_u32_le_inj(payload_tag(m), 2);
                        let sid = m->KeyRequest_0;
                        lemma_kr_decompose(sid, b@);
                        lemma_u64_le_inj_at(b@, 4, sid.len() as u64);
                    }
                }
            }
            None
        },
    }
}

/// Where the next prekey item of an encoded key response sits, given the
/// items parsed so far.
#[verifier::rlimit(50)]
proof fn lemma_kresp_item_at(
    kr: crate::payload::KeyResponseModel,
    b: Seq<u8>,
    ms: Seq<PreKeyItemModel>,
    pos: int,
)
    requires
        payload_wf(PayloadModel::KeyResponse(kr)),
        b == payload_bytes(PayloadModel::KeyResponse(kr)),
        items_bounded(ms),
        ms.len() <= kr.items.len(),
        b.subrange(28 + kr.service_id.len() as int + kr.identity_key.len() as int, pos) == items_body(ms),
        28 + kr.service_id.len() + kr.identity_key.len() <= pos <= b.len(),
    ensures
        ms == kr.items.take(ms.len() as int),
        ms.len() < kr.items.len() ==> ({
            let q = kr.items[ms.len() as int];
            &&& pos + 16 + q.bundle.len() <= b.len()
            &&& b.subrange(pos, pos + 4) =~= u32_le(q.device_id)
            &&& b.subrange(pos + 4, pos + 8) =~= u32_le(q.registration_id)
            &&& b.subrange(pos + 8, pos + 16) =~= u64_le(q.bundle.len() as u64)
            &&& b.subrange(pos + 16, pos + 16 + q.bundle.len()) =~= q.bundle
        }),
        ms.len() == kr.items.len() ==> pos == b.len(),
{
    lemma_kresp_decompose(kr, b);
    let start = 28 + kr.service_id.len() + kr.identity_key.len();
    let rest = b.subrange(pos, b.len() as int);
    assert(items_body(ms) + rest =~= items_body(kr.items)) by {
        assert(b.subrange(start as int, b.len() as int) =~= b.subrange(start as int, pos)
            + b.subrange(pos, b.len() as int));
    }
    lemma_items_body_split(kr.items, ms, rest);
    if ms.len() < kr.items.len() {
        let tail = kr.items.skip(ms.len() as int);
        lemma_items_body_first(tail);
        let q = kr.items[ms.len() as int];
        assert(tail.first() == q);
        assert(rest =~= item_bytes(q) + items_body(tail.drop_first()));
        assert(rest.len() >= 16 + q.bundle.len());
        assert(b.subrange(pos, pos + 4) =~= rest.subrange(0, 4));
        assert(rest.subrange(0, 4) =~= u32_le(q.device_id));
        assert(b.subrange(pos + 4, pos + 8) =~= rest.subrange(4, 8));
        assert(rest.subrange(4, 8) =~= u32_le(q.registration_id));
        assert(b.subrange(pos + 8, pos + 16) =~= rest.subrange(8, 16));
        assert(rest.subrange(8, 16) =~= u64_le(q.bundle.len() as u64));
        assert(b.subrange(pos + 16, pos + 16 + q.bundle.len() as int) =~= rest.subrange(
            16,
            16 + q.bundle.len() as int,
        ));
        assert(rest.subrange(16, 16 + q.bundle.len() as int) =~= q.bundle);
    } else {
        assert(kr.items.skip(ms.len() as int) =~= Seq::<PreKeyItemModel>::empty());
        assert(rest =~= Seq::<u8>::empty());
    }
}

/// Decode the body of a key-response payload.
fn decode_key_response(b: &Vec<u8>) -> (r: Option<DeniablePayload>)
    requires
        b@.len() >= 4,
        b@.subrange(0, 4) == u32_le(3),
    ensures
        match r {
            Some(p) => payload_bytes(p.model()) == b@ && payload_wf(p.model()),
            None => forall|m: PayloadModel|
                payload_wf(m) ==> b@ != #[trigger] payload_bytes(m),
        },
{
    let parsed: Option<(Vec<u8>, Vec<u8>, u64, usize)> = match read_lp(b, 4) {
        Some((sid, p1)) => match read_lp(b, p1) {
            Some((ik, p2)) => match read_u64(b, p2) {
                Some((count, p3)) => Some((sid, ik, count, p3)),
                None => None,
            },
            None => None,
        },
        None => None,
    };
    let (sid, ik, count, start) = match parsed {
        Some(t) => t,
        None => {
            proof {
                assert forall|m: PayloadModel| payload_wf(m) implies b@ != #[trigger] payload_bytes(
                    m,
                ) by {
                    if b@ == payload_bytes(m) {
                        lemma_payload_bytes_tag(m);
                        lemma_u32_le_inj(payload_tag(m), 3);
                        let kr = m->KeyResponse_0;
                        lemma_kresp_decompose(kr, b@);
                        let s = kr.service_id.len() as int;
                        let k = kr.identity_key.len() as int;
                        lemma_u64_le_inj_at(b@, 4, kr.service_id.len() as u64);
                        lemma_u64_le_inj_at(b@, 12 + s, kr.identity_key.len() as u64);
                    }
                }
            }
            return None;
        },
    };
    let mut items: Vec<crate::payload::PreKeyItem> = Vec::new();
    let mut pos: usize = start;
    let mut i: u64 = 0;
    proof {
        assert(items@.map_values(|it: crate::payload::PreKeyItem| it.model()) =~= Seq::<
            PreKeyItemModel,
        >::empty());
        assert(b@.subrange(start as int, pos as int) =~= items_body(
            items@.map_values(|it: crate::payload::PreKeyItem| it.model()),
        ));
    }
    while i < count
        invariant
            items@.len() == i,
            i <= count,
            start <= pos <= b@.len(),
            b@.len() >= 4,
            b@.subrange(0, 4) == u32_le(3),
            b@.subrange(4, 12) == u64_le(sid@.len() as u64),
            b@.subrange(12, 12 + sid@.len() as int) == sid@,
            b@.subrange(12 + sid@.len() as int, 20 + sid@.len() as int) == u64_le(ik@.len() as u64),
            b@.subrange(20 + sid@.len() as int, 20 + sid@.len() as int + ik@.len() as int) == ik@,
            b@.subrange(20 + sid@.len() as int + ik@.len() as int, 28 + sid@.len() as int + ik@.len() as int) == u64_le(count),
            start == 28 + sid@.len() + ik@.len(),
            b@.subrange(start as int, pos as int) == items_body(
                items@.map_values(|it: crate::payload::PreKeyItem| it.model()),
            ),
        decreases count - i,
    {
        let ghost ms = items@.map_values(|it: crate::payload::PreKeyItem| it.model());
        proof {
            assert(items_bounded(ms)) by {
                assert forall|j: int| 0 <= j < ms.len() implies (#[trigger] ms[j]).bundle.len()
                    <= u64::MAX by {
                    assert(ms[j] == items@[j].model());
                    assert(items@[j].bundle.len() == items@[j].bundle@.len());
                }
            }
        }
        let step: Option<(u32, u32, Vec<u8>, usize)> = match read_u32(b, pos) {
            Some((dev, q1)) => match read_u32(b, q1) {
                Some((reg, q2)) => match read_lp(b, q2) {
                    Some((bundle, q3)) => Some((dev, reg, bundle, q3)),
                    None => None,
                },
                None => None,
            },
            None => None,
        };
        let (dev, reg, bundle, newpos) = match step {
            Some(t) => t,
            None => {
                proof {
                    assert forall|m: PayloadModel| payload_wf(m) implies b@
                        != #[trigger] payload_bytes(m) by {
                        if b@ == payload_bytes(m) {
                            lemma_payload_bytes_tag(m);
                            lemma_u32_le_inj(payload_tag(m), 3);
                            let kr = m->KeyResponse_0;
                            lemma_kresp_decompose(kr, b@);
                            lemma_u64_le_inj_at(b@, 4, kr.service_id.len() as u64);
                            lemma_u64_le_inj_at(
                                b@,
                                12 + kr.service_id.len() as int,
                                kr.identity_key.len() as u64,
                            );
                            lemma_u64_le_inj(count, kr.items.len() as u64);
                            lemma_kresp_item_at(kr, b@, ms, pos as int);
                            let q = kr.items[i as int];
                            lemma_u64_le_inj_at(b@, pos + 8, q.bundle.len() as u64);
                        }
                    }
                }
                return None;
            },
        };
        let ghost newm = PreKeyItemModel { device_id: dev, registration_id: reg, bundle: bundle@ };
        proof {
            assert(b@.subrange(pos as int, newpos as int) =~= item_bytes(newm)) by {
                assert(b@.subrange(pos as int, newpos as int) =~= b@.subrange(pos as int, pos + 4)
                    + b@.subrange(pos + 4, pos + 8) + b@.subrange(pos + 8, pos + 16)
                    + b@.subrange(pos + 16, newpos as int));
            }
            lemma_items_body_push(ms, newm);
            assert(b@.subrange(start as int, newpos as int) =~= items_body(ms.push(newm))) by {
                assert(b@.subrange(start as int, newpos as int) =~= b@.subrange(
                    start as int,
                    pos as int,
                ) + b@.subrange(pos as int, newpos as int));
            }
        }
        items.push(crate::payload::PreKeyItem { device_id: dev, registration_id: reg, bundle });
        proof {
            assert(items@.map_values(|it: crate::payload::PreKeyItem| it.model()) =~= ms.push(
                newm,
            ));
        }
        pos = newpos;
        i = i + 1;
    }
    let ghost ms = items@.map_values(|it: crate::payload::PreKeyItem| it.model());
    if pos == b.len() {
        let p = DeniablePayload::KeyResponse(
            crate::payload::PreKeyResponse { service_id: sid, identity_key: ik, items },
        );
        proof {
            assert(items_bounded(ms)) by {
                assert forall|j: int| 0 <= j < ms.len() implies (#[trigger] ms[j]).bundle.len()
                    <= u64::MAX by {
                    assert(ms[j] == items@[j].model());
                    assert(items@[j].bundle.len() == items@[j].bundle@.len());
                }
            }
            assert(payload_bytes(p.model()) =~= b@) by {
                assert(p.model()->KeyResponse_0.items =~= ms);
                assert(b@ =~= b@.subrange(0, 4) + b@.subrange(4, 12) + b@.subrange(
                    12,
                    12 + sid@.len() as int,
                ) + b@.subrange(12 + sid@.len() as int, 20 + sid@.len() as int) + b@.subrange(
                    20 + sid@.len() as int,
                    20 + sid@.len() as int + ik@.len() as int,
                ) + b@.subrange(
                    20 + sid@.len() as int + ik@.len() as int,
                    28 + sid@.len() as int + ik@.len() as int,
                ) + b@.subrange(28 + sid@.len() as int + ik@.len() as int, b@.len() as int));
            }
        }
        Some(p)
    } else {
        proof {
            assert(items_bounded(ms)) by {
                assert forall|j: int| 0 <= j < ms.len() implies (#[trigger] ms[j]).bundle.len()
                    <= u64::MAX by {
                    assert(ms[j] == items@[j].model());
                    assert(items@[j].bundle.len() == items@[j].bundle@.len());
                }
            }
            assert forall|m: PayloadModel| payload_wf(m) implies b@ != #[trigger] payload_bytes(
                m,
            ) by {
                if b@ == payload_bytes(m) {
                    lemma_payload_bytes_tag(m);
                    lemma_u32_le_inj(payload_tag(m), 3);
                    let kr = m->KeyResponse_0;
                    lemma_kresp_decompose(kr, b@);
                    lemma_u64_le_inj_at(b@, 4, kr.service_id.len() as u64);
                    lemma_u64_le_inj_at(
                        b@,
                        12 + kr.service_id.len() as int,
                        kr.identity_key.len() as u64,
                    );
                    lemma_u64_le_inj(count, kr.items.len() as u64);
                    lemma_kresp_item_at(kr, b@, ms, pos as int);
                }
            }
        }
        None
    }
}

/// Decode one chunk: its length-prefixed payload, then its flag word.
pub fn decode_chunk(b: &Vec<u8>) -> (r: Option<DenimChunk>)
    ensures
        match r {
            Some(c) => chunk_bytes(c) == b@,
            None => forall|c: DenimChunk| b@ != #[trigger] chunk_bytes(c),
        },
{
    let parsed: Option<(Vec<u8>, i32, usize)> = match read_lp(b, 0) {
        Some((payload, p1)) => match read_i32(b, p1) {
            Some((flags, p2)) => Some((payload, flags, p2)),
            None => None,
        },
        None => None,
    };
    match parsed {
        Some((payload, flags, end)) if end == b.len() => {
            let c = DenimChunk { chunk: payload, flags };
            proof {
                assert(chunk_bytes(c) =~= b@);
            }
            Some(c)
        },
        _ => {
            proof {
                assert forall|c: DenimChunk| b@ != #[trigger] chunk_bytes(c) by {
                    if b@ == chunk_bytes(c) {
                        assert(b@.len() == 12 + c.chunk@.len());
                        assert(b@.subrange(0, 8) =~= u64_le(c.chunk@.len() as u64));
                        assert(b@.subrange(8, 8 + c.chunk@.len() as int) =~= c.chunk@);
                        lemma_u64_le_inj_at(b@, 0, c.chunk@.len() as u64);
                    }
                }
            }
            None
        },
    }
}

/// Whether some bounded payload encodes to these bytes.
pub open spec fn is_payload_encoding(b: Seq<u8>) -> bool {
    exists|m: PayloadModel| payload_wf(m) && b == #[trigger] payload_bytes(m)
}

/// The payload the bytes encode; meaningful only on a payload encoding, and
/// unique by the injectivity of the encoding.
pub open spec fn decoded_of(b: Seq<u8>) -> PayloadModel
    recommends
        is_payload_encoding(b),
{
    choose|m: PayloadModel| payload_wf(m) && b == payload_bytes(m)
}

/// Decode a list of reassembled payload byte strings, dropping the corrupt
/// ones: a lost partial payload does not stop the rest.
pub open spec fn decode_list(ds: Seq<Seq<u8>>) -> Seq<PayloadModel>
    decreases ds.len(),
{
    if ds.len() == 0 {
        Seq::empty()
    } else {
        (if is_payload_encoding(ds.first()) {
            seq![decoded_of(ds.first())]
        } else {
            Seq::<PayloadModel>::empty()
        }) + decode_list(ds.drop_first())
    }
}

/// The payload encoding is injective on bounded payloads.
pub proof fn lemma_payload_bytes_inj(m1: PayloadModel, m2: PayloadModel)
    requires
        payload_wf(m1),
        payload_wf(m2),
        payload_bytes(m1) == payload_bytes(m2),
    ensures
        m1 == m2,
{
    let b = payload_bytes(m1);
    lemma_payload_bytes_tag(m1);
    lemma_payload_bytes_tag(m2);
    lemma_u32_le_inj(payload_tag(m1), payload_tag(m2));
    match m1 {
        PayloadModel::SignalMessage(s1) => {
            let s2 = m2->SignalMessage_0;
            lemma_sm_decompose(s1, b);
            lemma_sm_decompose(s2, b);
            lemma_u64_le_inj(
                s1.destination_service_id.len() as u64,
                s2.destination_service_id.len() as u64,
            );
            lemma_u32_le_inj(s1.message_type, s2.message_type);
            lemma_u32_le_inj(s1.destination_device_id, s2.destination_device_id);
            lemma_u32_le_inj(s1.destination_registration_id, s2.destination_registration_id);
            lemma_u64_le_inj(s1.content.len() as u64, s2.content.len() as u64);
            assert(m1 =~= m2);
        },
        PayloadModel::Envelope(e1) => {
            let e2 = m2->Envelope_0;
            lemma_env_decompose(e1, b);
            lemma_env_decompose(e2, b);
            lemma_u32_le_inj(e1.envelope_type, e2.envelope_type);
            lemma_u64_le_inj(e1.source_service_id.len() as u64, e2.source_service_id.len() as u64);
            lemma_u32_le_inj(e1.source_device_id, e2.source_device_id);
            lemma_u64_le_inj(
                e1.destination_service_id.len() as u64,
                e2.destination_service_id.len() as u64,
            );
            lemma_u64_le_inj(e1.content.len() as u64, e2.content.len() as u64);
            lemma_u64_le_inj(e1.timestamp, e2.timestamp);
            assert(m1 =~= m2);
        },
        PayloadModel::KeyRequest(sid1) => {
            let sid2 = m2->KeyRequest_0;
            lemma_kr_decompose(sid1, b);
            lemma_kr_decompose(sid2, b);
            lemma_u64_le_inj(sid1.len() as u64, sid2.len() as u64);
            assert(m1 =~= m2);
        },
        PayloadModel::KeyResponse(k1) => {
            let k2 = m2->KeyResponse_0;
            lemma_kresp_decompose(k1, b);
            lemma_kresp_decompose(k2, b);
            lemma_u64_le_inj(k1.service_id.len() as u64, k2.service_id.len() as u64);
            lemma_u64_le_inj(k1.identity_key.len() as u64, k2.identity_key.len() as u64);
            lemma_u64_le_inj(k1.items.len() as u64, k2.items.len() as u64);
            assert(items_body(k1.items) + Seq::<u8>::empty() =~= items_body(k2.items));
            lemma_items_body_split(k2.items, k1.items, Seq::empty());
            assert(k1.items =~= k2.items);
            assert(m1 =~= m2);
        },
    }
}

/// At a position carrying a 64-bit length word, any successful read agrees
/// with it.
proof fn lemma_u64_le_inj_at(b: Seq<u8>, pos: int, n: u64)
    requires
        0 <= pos,
        pos + 8 <= b.len(),
        b.subrange(pos, pos + 8) == u64_le(n),
    ensures
        forall|n2: u64| b.subrange(pos, pos + 8) == u64_le(n2) ==> n2 == n,
{
    assert forall|n2: u64| b.subrange(pos, pos + 8) == u64_le(n2) implies n2 == n by {
        lemma_u64_le_inj(n, n2);
    }
}

/// Serialized size of one chunk: the fixed overhead plus its payload bytes.
pub open spec fn chunk_encoded_len(c: DenimChunk) -> int {
    EMPTY_DENIMCHUNK_SIZE + c.chunk@.len()
}

/// Serialized size of a chunk list: the length prefix plus each chunk.
pub open spec fn chunks_encoded_len(cs: Seq<DenimChunk>) -> int
    decreases cs.len(),
{
    if cs.len() == 0 {
        EMPTY_VEC_SIZE as int
    } else {
        chunks_encoded_len(cs.drop_last()) + chunk_encoded_len(cs.last())
    }
}

/// Appending a chunk grows the serialized size by that chunk's size.
pub proof fn lemma_chunks_encoded_len_push(cs: Seq<DenimChunk>, c: DenimChunk)
    ensures
        chunks_encoded_len(cs.push(c)) == chunks_encoded_len(cs) + chunk_encoded_len(c),
{
    assert(cs.push(c).drop_last() =~= cs);
    assert(cs.push(c).last() == c);
}

/// Serialized size of a chunk list, computed without serializing.
pub fn chunks_serialized_size(chunks: &Vec<DenimChunk>) -> (r: usize)
    requires
        chunks_encoded_len(chunks@) <= usize::MAX,
    ensures
        r == chunks_encoded_len(chunks@),
{
    let mut total: usize = EMPTY_VEC_SIZE;
    let mut i: usize = 0;
    while i < chunks.len()
        invariant
            0 <= i <= chunks.len(),
            total == chunks_encoded_len(chunks@.take(i as int)),
            chunks_encoded_len(chunks@) <= usize::MAX,
        decreases chunks.len() - i,
    {
        proof {
            assert(chunks@.take(i + 1).drop_last() =~= chunks@.take(i as int));
            assert(chunks@.take(i + 1).last() == chunks@[i as int]);
            lemma_chunks_len_take_le(chunks@, i + 1);
        }
        total = total + EMPTY_DENIMCHUNK_SIZE + chunks[i].chunk.len();
        i = i + 1;
    }
    proof {
        assert(chunks@.take(chunks@.len() as int) =~= chunks@);
    }
    total
}

/// The serialized size of a prefix never exceeds that of the whole list.
pub proof fn lemma_chunks_len_take_le(cs: Seq<DenimChunk>, n: int)
    requires
        0 <= n <= cs.len(),
    ensures
        chunks_encoded_len(cs.take(n)) <= chunks_encoded_len(cs),
    decreases cs.len() - n,
{
    if n < cs.len() {
        assert(cs.take(n + 1).drop_last() =~= cs.take(n));
        assert(chunk_encoded_len(cs.take(n + 1).last()) >= 0);
        lemma_chunks_len_take_le(cs, n + 1);
        assert(cs.take(cs.len() as int) =~= cs);
    } else {
        assert(cs.take(n) =~= cs);
    }
}

} // verus!
