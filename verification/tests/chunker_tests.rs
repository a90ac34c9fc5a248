use denim_core::chunk::{ChunkType, DenimChunk, DUMMY_FLAG, FINAL_FLAG};
use denim_core::chunker::{Chunker, PayloadData};
use denim_core::client::OutgoingPayloadQueue;
use denim_core::codec::{
    decode_chunk, decode_payload, encode_chunks, encode_payload,
    DENIMARRAY_WITH_EMPTY_DENIMCHUNK_SIZE, EMPTY_DENIMCHUNK_SIZE, EMPTY_VEC_SIZE,
};
use denim_core::envelope::{decode_denim_message, encode_denim_message, DenimMessage};
use denim_core::payload::{
    DeniablePayload, EnvelopeData, PreKeyItem, PreKeyRequest, PreKeyResponse, SignalMessage,
};
use denim_core::ratio::QRatio;
use denim_core::reassembly::reassemble;

fn encode_one_chunk(c: &DenimChunk) -> Vec<u8> {
    let mut out = Vec::new();
    denim_core::codec::push_chunk(&mut out, c);
    out
}

fn q06() -> QRatio {
    QRatio::new(6, 10).unwrap()
}

#[test]
fn empty_chunk_size_checker() {
    let empty_chunk = DenimChunk { chunk: vec![], flags: 1 };
    let empty_chunk_serialized = encode_one_chunk(&empty_chunk);
    assert_eq!(empty_chunk_serialized.len(), EMPTY_DENIMCHUNK_SIZE);
    // The layout matches the little-endian, fixed-width tuple encoding.
    let reference = bincode::serialize(&(empty_chunk.chunk.clone(), empty_chunk.flags)).unwrap();
    assert_eq!(empty_chunk_serialized, reference);
}

#[test]
fn dummy_chunk_size_checker() {
    let dummy_payload_size = 10;
    let dummy_chunk = DenimChunk { chunk: vec![0; dummy_payload_size], flags: 1 };
    let dummy_serialized = encode_one_chunk(&dummy_chunk);
    assert_eq!(dummy_serialized.len(), EMPTY_DENIMCHUNK_SIZE + dummy_payload_size);
    let reference = bincode::serialize(&(dummy_chunk.chunk.clone(), dummy_chunk.flags)).unwrap();
    assert_eq!(dummy_serialized, reference);
}

#[test]
fn nonempty_chunk_size_checker() {
    let nonempty_chunk = DenimChunk { chunk: vec![1], flags: 1 };
    let nonempty_chunk_serialized = encode_one_chunk(&nonempty_chunk);
    assert_eq!(nonempty_chunk_serialized.len(), EMPTY_DENIMCHUNK_SIZE + 1);
    let reference =
        bincode::serialize(&(nonempty_chunk.chunk.clone(), nonempty_chunk.flags)).unwrap();
    assert_eq!(nonempty_chunk_serialized, reference);
}

#[test]
fn denim_array_with_empty_chunk_size_checker() {
    let denim_array: Vec<DenimChunk> = vec![DenimChunk { chunk: vec![], flags: 1 }];
    let denim_array_serialized = encode_chunks(&denim_array);
    assert_eq!(denim_array_serialized.len(), DENIMARRAY_WITH_EMPTY_DENIMCHUNK_SIZE);
    let reference: Vec<(Vec<u8>, i32)> =
        denim_array.iter().map(|c| (c.chunk.clone(), c.flags)).collect();
    assert_eq!(denim_array_serialized, bincode::serialize(&reference).unwrap());
}

#[test]
fn create_chunks_no_chunks() {
    let expected_deniable_payload_length = 18;
    let mut buffer = OutgoingPayloadQueue::new();
    let chunker = Chunker::new(q06());
    let chunks = chunker.create_chunks(30, &mut buffer);
    let denim_array_serialized = encode_chunks(&chunks.0);
    assert!(chunks.0.is_empty());
    assert_eq!(denim_array_serialized.len() + chunks.1, expected_deniable_payload_length);
}

#[test]
fn create_chunks_dummy_chunk() {
    let expected_deniable_payload_length = 24;
    let mut buffer = OutgoingPayloadQueue::new();
    let chunker = Chunker::new(q06());
    let chunks = chunker.create_chunks(40, &mut buffer);
    let denim_array_serialized = encode_chunks(&chunks.0);
    assert_eq!(chunks.0.len(), 1);
    assert!(chunks.0[0].is_dummy());
    assert_eq!(chunks.0[0].chunk, vec![0u8; 4]);
    assert_eq!(denim_array_serialized.len() + chunks.1, expected_deniable_payload_length);
}

#[test]
fn drain_one_payload_over_many_envelopes() {
    // A 32-byte payload under overt size 40 and q = 0.6: each envelope has
    // room for 4 payload bytes, so ranks step 0, -1, ..., then a final.
    let payload: Vec<u8> = (0u8..32).collect();
    let mut buffer = OutgoingPayloadQueue::new();
    buffer.enqueue(payload.clone());
    let chunker = Chunker::new(q06());
    let mut emitted: Vec<DenimChunk> = Vec::new();
    for round in 0..8 {
        let (chunks, residual) = chunker.create_chunks(40, &mut buffer);
        assert_eq!(chunks.len(), 1);
        let sizes = denim_core::codec::chunks_serialized_size(&chunks);
        assert_eq!(sizes + residual, 24);
        if round < 7 {
            assert_eq!(chunks[0].flags, -round);
        } else {
            assert_eq!(chunks[0].flags, FINAL_FLAG);
        }
        emitted.extend(chunks);
    }
    // The buffer is drained: one more call emits only a dummy.
    let (chunks, _) = chunker.create_chunks(40, &mut buffer);
    assert!(chunks[0].is_dummy());
    // Reassembly returns exactly the queued payload.
    let (done, pending) = reassemble(emitted);
    assert_eq!(done, vec![payload]);
    assert!(pending.is_empty());
}

#[test]
fn two_payloads_keep_their_order() {
    let p1: Vec<u8> = vec![1; 40];
    let p2: Vec<u8> = vec![2; 40];
    let mut buffer = OutgoingPayloadQueue::new();
    buffer.enqueue(p1.clone());
    buffer.enqueue(p2.clone());
    let chunker = Chunker::new(q06());
    let mut emitted: Vec<DenimChunk> = Vec::new();
    // Overt size 50 gives ceil(50 * 0.6) = 30 budget: 10 payload bytes each.
    for _ in 0..10 {
        let (chunks, _) = chunker.create_chunks(50, &mut buffer);
        emitted.extend(chunks);
    }
    let (done, pending) = reassemble(emitted);
    assert_eq!(done, vec![p1, p2]);
    assert!(pending.is_empty());
}

#[test]
fn create_ordered_chunks_cuts_and_carries() {
    let data: Vec<u8> = (0u8..32).collect();
    let (chunks, residual, pending) =
        Chunker::create_ordered_chunks(q06(), 40, PayloadData::new(data.clone()));
    assert_eq!(chunks.len(), 1);
    assert_eq!(chunks[0].flags, 0);
    assert_eq!(chunks[0].chunk, data[..4].to_vec());
    assert_eq!(residual, 0);
    assert_eq!(pending.chunk, data[4..].to_vec());
    assert_eq!(pending.flags, -1);
}

#[test]
fn reassemble_sorts_shuffled_data_chunks() {
    let c0 = DenimChunk { chunk: vec![10, 11], flags: 0 };
    let c1 = DenimChunk { chunk: vec![12, 13], flags: -1 };
    let c2 = DenimChunk { chunk: vec![14], flags: -2 };
    let fin = DenimChunk { chunk: vec![15], flags: FINAL_FLAG };
    let dummy = DenimChunk { chunk: vec![0, 0, 0], flags: DUMMY_FLAG };
    // Data chunks out of order, dummies interleaved, final last.
    let chunks = vec![dummy.clone(), c1, c2, dummy, c0, fin];
    let (done, pending) = reassemble(chunks);
    assert_eq!(done, vec![vec![10, 11, 12, 13, 14, 15]]);
    assert!(pending.is_empty());
}

#[test]
fn reassemble_keeps_unterminated_data_pending() {
    let c0 = DenimChunk { chunk: vec![1, 2], flags: 0 };
    let c1 = DenimChunk { chunk: vec![3], flags: -1 };
    let (done, pending) = reassemble(vec![c0.clone(), c1.clone()]);
    assert!(done.is_empty());
    assert_eq!(pending, vec![c0, c1]);
}

#[test]
fn chunk_flags_classify() {
    assert_eq!(ChunkType::from_flags(1), Some(ChunkType::Dummy));
    assert_eq!(ChunkType::from_flags(2), Some(ChunkType::Final));
    assert_eq!(ChunkType::from_flags(0), Some(ChunkType::Data(0)));
    assert_eq!(ChunkType::from_flags(-3), Some(ChunkType::Data(-3)));
    // Values above the assigned ones are a protocol violation.
    assert_eq!(ChunkType::from_flags(3), None);
    assert_eq!(ChunkType::Data(-7).flags(), -7);
    assert_eq!(ChunkType::Dummy.flags(), 1);
    assert_eq!(ChunkType::Final.flags(), 2);
}

fn sample_payloads() -> Vec<DeniablePayload> {
    vec![
        DeniablePayload::SignalMessage(SignalMessage {
            message_type: 3,
            destination_device_id: 1,
            destination_registration_id: 77,
            destination_service_id: b"bob".to_vec(),
            content: b"A message to Bob is here written".to_vec(),
        }),
        DeniablePayload::Envelope(EnvelopeData {
            envelope_type: 2,
            source_service_id: b"alice".to_vec(),
            source_device_id: 4,
            destination_service_id: b"bob".to_vec(),
            content: vec![9, 9, 9],
            timestamp: 123_456,
        }),
        DeniablePayload::KeyRequest(PreKeyRequest { service_id: b"carol".to_vec() }),
        DeniablePayload::KeyResponse(PreKeyResponse {
            service_id: b"carol".to_vec(),
            identity_key: vec![5; 33],
            items: vec![
                PreKeyItem { device_id: 1, registration_id: 11, bundle: vec![1, 2, 3] },
                PreKeyItem { device_id: 2, registration_id: 22, bundle: vec![] },
            ],
        }),
    ]
}

#[test]
fn payload_codec_round_trips() {
    for p in sample_payloads() {
        let bytes = encode_payload(&p);
        let back = decode_payload(&bytes).expect("a valid encoding decodes");
        assert_eq!(back, p);
    }
}

#[test]
fn payload_decode_rejects_corrupt_bytes() {
    // An unassigned variant tag.
    let mut bytes = encode_payload(&sample_payloads()[0]);
    bytes[0] = 9;
    assert!(decode_payload(&bytes).is_none());
    // A truncated encoding: the partial payload is lost.
    let whole = encode_payload(&sample_payloads()[2]);
    let truncated = whole[..whole.len() - 1].to_vec();
    assert!(decode_payload(&truncated).is_none());
    // Trailing garbage.
    let mut padded = whole.clone();
    padded.push(0);
    assert!(decode_payload(&padded).is_none());
}

#[test]
fn chunk_codec_round_trips() {
    let c = DenimChunk { chunk: vec![1, 2, 3], flags: -2 };
    let bytes = encode_one_chunk(&c);
    assert_eq!(decode_chunk(&bytes), Some(c));
    assert!(decode_chunk(&bytes[..bytes.len() - 1].to_vec()).is_none());
}

#[test]
fn envelope_codec_round_trips() {
    let dm = DenimMessage {
        regular_payload: b"an overt envelope".to_vec(),
        chunks: vec![
            DenimChunk { chunk: vec![1, 2], flags: 0 },
            DenimChunk { chunk: vec![3], flags: FINAL_FLAG },
        ],
        counter: None,
        q_bits: Some(0x3f19_999a),
        ballast: vec![0; 5],
    };
    let bytes = encode_denim_message(&dm);
    let back = decode_denim_message(&bytes).expect("a valid envelope decodes");
    assert_eq!(back, dm);
    assert!(decode_denim_message(&bytes[1..].to_vec()).is_none());
}

#[test]
fn budget_is_exact_ceiling() {
    let q = q06();
    assert_eq!(q.budget(30), 18);
    assert_eq!(q.budget(40), 24);
    assert_eq!(q.budget(0), 0);
    assert_eq!(q.budget(1), 1);
    let third = QRatio::new(1, 3).unwrap();
    assert_eq!(third.budget(10), 4);
    assert!(QRatio::new(0, 3).is_none());
    assert!(QRatio::new(4, 3).is_none());
}
