use denim_core::api::{generate_chunk, generate_payload, DeniablePayloadType, VerifiedSession};
use denim_core::availability::{AvailabilityListener, ListenerRegistry};
use denim_core::chunk::{DenimChunk, DUMMY_FLAG, FINAL_FLAG};
use denim_core::client::ClientDenimState;
use denim_core::codec::encode_payload;
use denim_core::denim_manager::{
    create_deniable_payloads, route_deniable_payload, Buffer, DenIMManager, DeviceAddress,
    InboundAction, QueueId,
};
use denim_core::persistence::PersistenceIndex;
use denim_core::errors::DenimError;
use denim_core::payload::{DeniablePayload, PreKeyResponse, SignalMessage};
use denim_core::ratio::QRatio;
use denim_core::session::{DeviceStorage, SessionStore};
use denim_core::store::BufferQueue;

fn q06() -> QRatio {
    QRatio::new(6, 10).unwrap()
}

fn addr(n: u64) -> DeviceAddress {
    DeviceAddress { account_id: n, device_id: 1 }
}

fn sample_message(text: &str) -> DeniablePayload {
    DeniablePayload::SignalMessage(SignalMessage {
        message_type: 1,
        destination_device_id: 1,
        destination_registration_id: 1,
        destination_service_id: b"bob".to_vec(),
        content: text.as_bytes().to_vec(),
    })
}

#[test]
fn idempotent_insert_same_guid() {
    let mut q = BufferQueue::new();
    let id1 = q.insert(&b"guid-a".to_vec(), vec![1, 2, 3]);
    let id2 = q.insert(&b"guid-a".to_vec(), vec![9, 9, 9]);
    assert_eq!(id1, id2);
    let (values, guids) = q.get_values(0);
    assert_eq!(values, vec![vec![1, 2, 3]]);
    assert_eq!(guids, vec![b"guid-a".to_vec()]);
}

#[test]
fn insert_assigns_increasing_ids() {
    let mut q = BufferQueue::new();
    let id1 = q.insert(&b"g1".to_vec(), vec![1]);
    let id2 = q.insert(&b"g2".to_vec(), vec![2]);
    let id3 = q.insert(&b"g3".to_vec(), vec![3]);
    assert!(id1 < id2 && id2 < id3);
}

#[test]
fn reverse_lookup_round_trips() {
    let mut q = BufferQueue::new();
    q.insert(&b"first".to_vec(), vec![10]);
    q.insert(&b"second".to_vec(), vec![20]);
    let (values, guids) = q.get_values(0);
    // Forward and reverse metadata agree: each value pairs with the guid it
    // was inserted under.
    assert_eq!(values, vec![vec![10], vec![20]]);
    assert_eq!(guids, vec![b"first".to_vec(), b"second".to_vec()]);
}

#[test]
fn remove_by_guid_returns_values() {
    let mut q = BufferQueue::new();
    q.insert(&b"keep".to_vec(), vec![1]);
    q.insert(&b"drop".to_vec(), vec![2]);
    let removed = q.remove(&vec![b"drop".to_vec(), b"unknown".to_vec()]);
    assert_eq!(removed, vec![vec![2]]);
    let (values, guids) = q.get_values(0);
    assert_eq!(values, vec![vec![1]]);
    assert_eq!(guids, vec![b"keep".to_vec()]);
}

#[test]
fn lock_respects_reads_and_dequeues() {
    let mut q = BufferQueue::new();
    q.insert(&b"g".to_vec(), vec![1, 2, 3, 4]);
    q.lock_for_persistence();
    assert!(q.is_locked());
    let (values, guids) = q.get_values(0);
    assert!(values.is_empty() && guids.is_empty());
    let (bytes, taken, flag) = q.dequeue(2);
    assert!(bytes.is_empty());
    assert_eq!(taken, 0);
    assert_eq!(flag, DUMMY_FLAG);
    q.unlock_after_persistence();
    let (values, _) = q.get_values(0);
    assert_eq!(values, vec![vec![1, 2, 3, 4]]);
    let (bytes, taken, flag) = q.dequeue(2);
    assert_eq!(bytes, vec![1, 2]);
    assert_eq!(taken, 2);
    assert_eq!(flag, 0);
}

#[test]
fn dequeue_ranks_step_down_to_final() {
    let mut q = BufferQueue::new();
    q.insert(&b"g".to_vec(), vec![7; 10]);
    let (b1, t1, f1) = q.dequeue(4);
    let (b2, t2, f2) = q.dequeue(4);
    let (b3, t3, f3) = q.dequeue(4);
    assert_eq!((b1.len(), t1, f1), (4, 4, 0));
    assert_eq!((b2.len(), t2, f2), (4, 4, -1));
    assert_eq!((b3.len(), t3, f3), (2, 2, FINAL_FLAG));
    let (values, _) = q.get_values(0);
    assert!(values.is_empty());
}

#[test]
fn test_incoming_and_outgoing_buffer() {
    let mut m = DenIMManager::new(q06());
    let incoming = vec![DenimChunk { chunk: vec![0], flags: 0 }];
    let outgoing = vec![
        DenimChunk { chunk: vec![0], flags: 0 },
        DenimChunk { chunk: vec![1], flags: 0 },
    ];
    m.set_incoming_chunks(addr(1), &incoming, &vec![b"a".to_vec()]);
    m.set_outgoing_chunks(addr(2), &outgoing, &vec![b"b".to_vec(), b"c".to_vec()]);
    let got_in = m.get_all_chunks(addr(1), Buffer::Sender).unwrap();
    let got_out = m.get_all_chunks(addr(2), Buffer::Receiver).unwrap();
    assert_eq!(got_in.len(), 1);
    assert_eq!(got_out.len(), 2);
}

#[test]
fn test_multiple_incoming_buffers() {
    let mut m = DenIMManager::new(q06());
    m.set_incoming_chunks(
        addr(1),
        &vec![DenimChunk { chunk: vec![0], flags: 0 }],
        &vec![b"a".to_vec()],
    );
    m.set_incoming_chunks(
        addr(2),
        &vec![
            DenimChunk { chunk: vec![0], flags: 0 },
            DenimChunk { chunk: vec![1], flags: 0 },
        ],
        &vec![b"b".to_vec(), b"c".to_vec()],
    );
    assert_eq!(m.get_all_chunks(addr(1), Buffer::Sender).unwrap().len(), 1);
    assert_eq!(m.get_all_chunks(addr(2), Buffer::Sender).unwrap().len(), 2);
}

#[test]
fn test_multiple_outgoing_buffers() {
    let mut m = DenIMManager::new(q06());
    m.set_outgoing_chunks(
        addr(1),
        &vec![DenimChunk { chunk: vec![0], flags: 0 }],
        &vec![b"a".to_vec()],
    );
    m.set_outgoing_chunks(
        addr(2),
        &vec![
            DenimChunk { chunk: vec![0], flags: 0 },
            DenimChunk { chunk: vec![1], flags: 0 },
        ],
        &vec![b"b".to_vec(), b"c".to_vec()],
    );
    assert_eq!(m.get_all_chunks(addr(1), Buffer::Receiver).unwrap().len(), 1);
    assert_eq!(m.get_all_chunks(addr(2), Buffer::Receiver).unwrap().len(), 2);
}

#[test]
fn test_get_multiple_deniable_payloads_raw() {
    let mut m = DenIMManager::new(q06());
    let p1 = sample_message("A message to Bob is here written");
    let p2 = sample_message("A message to Eve is here written");
    m.set_deniable_payloads(
        addr(1),
        &vec![p1.clone(), p2.clone()],
        &vec![b"g1".to_vec(), b"g2".to_vec()],
    );
    let raw = m.get_deniable_payloads_raw(addr(1));
    assert_eq!(raw, vec![encode_payload(&p1), encode_payload(&p2)]);
}

#[test]
fn test_take_multiple_deniable_payloads_data_exact_buffer_amount() {
    let mut m = DenIMManager::new(q06());
    let p1 = sample_message("A message to Bob is here written");
    let p2 = sample_message("A message to Eve is here written");
    m.set_deniable_payloads(
        addr(1),
        &vec![p1.clone(), p2.clone()],
        &vec![b"g1".to_vec(), b"g2".to_vec()],
    );
    let raw = m.get_deniable_payloads_raw(addr(1));
    let exact = raw[0].len() + raw[1].len();
    let taken: Vec<Vec<u8>> =
        m.dequeue_payload_data(addr(1), exact).into_iter().map(|c| c.chunk).collect();
    assert!(m.get_deniable_payloads_raw(addr(1)).is_empty());
    assert_eq!(taken, raw);
}

#[test]
fn test_take_multiple_deniable_payloads_data_under_buffer_amount() {
    let mut m = DenIMManager::new(q06());
    let p1 = sample_message("A message to Bob is here written");
    let p2 = sample_message("A message to Eve is here written");
    m.set_deniable_payloads(
        addr(1),
        &vec![p1.clone(), p2.clone()],
        &vec![b"g1".to_vec(), b"g2".to_vec()],
    );
    let raw = m.get_deniable_payloads_raw(addr(1));
    let taken = m.dequeue_payload_data(addr(1), 12);
    assert_eq!(taken.len(), 1);
    assert_eq!(taken[0].chunk, raw[0][..12].to_vec());
    assert!(!m.get_deniable_payloads_raw(addr(1)).is_empty());
}

#[test]
fn test_create_deniable_payloads_none_pending_data() {
    let payload = sample_message("A message to Bob is here written");
    let data = encode_payload(&payload);
    let chunks = vec![DenimChunk { chunk: data, flags: FINAL_FLAG }];
    let (payloads, pending) = create_deniable_payloads(chunks);
    assert_eq!(payloads, vec![payload]);
    assert!(pending.is_empty());
}

#[test]
fn test_create_deniable_payloads_multiple_payloads() {
    let p1 = sample_message("A message to Bob is here written");
    let p2 = sample_message("A message to Eve is here written");
    let d1 = encode_payload(&p1);
    let d2 = encode_payload(&p2);
    let split = d1.len() / 2;
    let chunks = vec![
        DenimChunk { chunk: d1[..split].to_vec(), flags: 0 },
        DenimChunk { chunk: d1[split..].to_vec(), flags: FINAL_FLAG },
        DenimChunk { chunk: vec![0, 0], flags: DUMMY_FLAG },
        DenimChunk { chunk: d2, flags: FINAL_FLAG },
    ];
    let (payloads, pending) = create_deniable_payloads(chunks);
    assert_eq!(payloads, vec![p1, p2]);
    assert!(pending.is_empty());
}

#[test]
fn test_create_deniable_payloads_out_of_order_data_chunks() {
    let payload = sample_message("A message to Bob is here written");
    let data = encode_payload(&payload);
    let a = data[..10].to_vec();
    let b = data[10..20].to_vec();
    let c = data[20..30].to_vec();
    let rest = data[30..].to_vec();
    // Data chunks shuffled; ranks restore the order; the final is last.
    let chunks = vec![
        DenimChunk { chunk: c, flags: -2 },
        DenimChunk { chunk: a, flags: 0 },
        DenimChunk { chunk: b, flags: -1 },
        DenimChunk { chunk: rest, flags: FINAL_FLAG },
    ];
    let (payloads, pending) = create_deniable_payloads(chunks);
    assert_eq!(payloads, vec![payload]);
    assert!(pending.is_empty());
}

#[test]
fn test_create_deniable_payloads_with_pending_data() {
    let payload = sample_message("A message to Bob is here written");
    let data = encode_payload(&payload);
    let chunks = vec![
        DenimChunk { chunk: data, flags: FINAL_FLAG },
        DenimChunk { chunk: vec![5, 6], flags: 0 },
    ];
    let (payloads, pending) = create_deniable_payloads(chunks);
    assert_eq!(payloads, vec![payload]);
    assert_eq!(pending, vec![DenimChunk { chunk: vec![5, 6], flags: 0 }]);
}

#[test]
fn test_multiple_outgoing_payloads() {
    let mut m = DenIMManager::new(q06());
    let p1 = sample_message("A message to Bob is here written");
    let p2 = sample_message("A message to Eve is here written");
    m.set_deniable_payloads(addr(1), &vec![p1.clone()], &vec![b"g1".to_vec()]);
    m.set_deniable_payloads(
        addr(2),
        &vec![p2.clone(), p1.clone()],
        &vec![b"g2".to_vec(), b"g3".to_vec()],
    );
    let got1 = m.get_deniable_payloads(addr(1)).unwrap();
    let got2 = m.get_deniable_payloads(addr(2)).unwrap();
    assert_eq!(got1, vec![p1.clone()]);
    assert_eq!(got2, vec![p2, p1]);
}

#[test]
fn test_get_deniable_payload_raw() {
    let mut m = DenIMManager::new(q06());
    let p = sample_message("A message to Bob is here written");
    m.set_deniable_payloads(addr(1), &vec![p.clone()], &vec![b"g".to_vec()]);
    let raw = m.get_deniable_payloads_raw(addr(1));
    assert_eq!(raw, vec![encode_payload(&p)]);
}

#[test]
fn test_take_deniable_payload_data() {
    let mut m = DenIMManager::new(q06());
    let p = sample_message("A message to Bob is here written");
    m.set_deniable_payloads(addr(1), &vec![p.clone()], &vec![b"g".to_vec()]);
    let raw = m.get_deniable_payloads_raw(addr(1));
    let total = raw[0].len();
    let take1 = m.dequeue_payload_data(addr(1), 25);
    let take2 = m.dequeue_payload_data(addr(1), 25);
    let take3 = m.dequeue_payload_data(addr(1), total - 50);
    let left = m.get_deniable_payloads_raw(addr(1));
    assert!(left.is_empty());
    let rebuilt: Vec<u8> = take1
        .into_iter()
        .chain(take2)
        .chain(take3)
        .flat_map(|c| c.chunk)
        .collect();
    assert_eq!(vec![rebuilt], raw);
}

#[test]
fn test_take_deniable_payload_data_inorder() {
    let mut m = DenIMManager::new(q06());
    let p = sample_message("A message to Bob is here written");
    m.set_deniable_payloads(addr(1), &vec![p.clone()], &vec![b"g".to_vec()]);
    let raw = m.get_deniable_payloads_raw(addr(1));
    let total = raw[0].len();
    let t1 = m.dequeue_payload_data(addr(1), 20);
    let t2 = m.dequeue_payload_data(addr(1), 20);
    let t3 = m.dequeue_payload_data(addr(1), total - 41);
    let t4 = m.dequeue_payload_data(addr(1), 1);
    assert_eq!(t1[0].flags, 0);
    assert_eq!(t2[0].flags, -1);
    assert_eq!(t3[0].flags, -2);
    assert_eq!(t4[0].flags, FINAL_FLAG);
    assert!(m.get_deniable_payloads_raw(addr(1)).is_empty());
}

#[test]
fn test_take_multiple_deniable_payloads_data_over_buffer_amount() {
    let mut m = DenIMManager::new(q06());
    let p1 = sample_message("A message to Bob is here written");
    let p2 = sample_message("A message to Eve is here written");
    m.set_deniable_payloads(
        addr(1),
        &vec![p1.clone(), p2.clone()],
        &vec![b"g1".to_vec(), b"g2".to_vec()],
    );
    let raw = m.get_deniable_payloads_raw(addr(1));
    let taken: Vec<Vec<u8>> = m
        .dequeue_payload_data(addr(1), raw[0].len() + raw[1].len() + 100)
        .into_iter()
        .map(|c| c.chunk)
        .collect();
    assert!(m.get_deniable_payloads_raw(addr(1)).is_empty());
    assert_eq!(taken, raw);
}

#[test]
fn test_take_multiple_deniable_payloads_data_zero_buffer_amount() {
    let mut m = DenIMManager::new(q06());
    let p = sample_message("A message to Bob is here written");
    m.set_deniable_payloads(addr(1), &vec![p.clone()], &vec![b"g".to_vec()]);
    let before = m.get_deniable_payloads_raw(addr(1));
    let taken = m.dequeue_payload_data(addr(1), 0);
    assert!(taken.is_empty());
    assert_eq!(m.get_deniable_payloads_raw(addr(1)), before);
}

#[test]
fn create_denim_message_meets_q_budget() {
    let mut m = DenIMManager::new(q06());
    let p = sample_message("A message to Bob is here written");
    m.set_deniable_payloads(addr(1), &vec![p.clone()], &vec![b"g".to_vec()]);
    let overt = vec![7u8; 100];
    let dm = m.create_denim_message(addr(1), overt.clone(), None, Some(1));
    // The q-budget rule: serialized chunks plus ballast is exactly
    // ceil(100 * 0.6) = 60 bytes.
    let chunk_bytes = denim_core::codec::encode_chunks(&dm.chunks);
    assert_eq!(chunk_bytes.len() + dm.ballast.len(), 60);
    assert!(dm.ballast.iter().all(|b| *b == 0));
    assert_eq!(dm.regular_payload, overt);
}

#[test]
fn empty_buffer_still_fills_the_budget_with_cover() {
    let mut m = DenIMManager::new(q06());
    let dm = m.create_denim_message(addr(9), vec![1u8; 100], None, None);
    let chunk_bytes = denim_core::codec::encode_chunks(&dm.chunks);
    assert_eq!(chunk_bytes.len() + dm.ballast.len(), 60);
    assert!(dm.chunks.iter().all(|c| c.is_dummy()));
    assert!(dm.chunks.iter().all(|c| c.chunk.iter().all(|b| *b == 0)));
}

#[test]
fn server_round_trip_sender_to_receiver() {
    // A client drains its queue into envelopes; the server collects the
    // chunks and reassembles the payload for routing.
    let q = q06();
    let mut client = ClientDenimState::new(q);
    let payload = sample_message("A message to Bob is here written");
    let bytes = encode_payload(&payload);
    client.store_deniable_payload(bytes);
    let mut m = DenIMManager::new(q);
    let mut guid: u8 = 0;
    loop {
        let (chunks, _) = client.create_outgoing_chunks(50);
        let had_final = chunks.iter().any(|c| c.is_final());
        let real: Vec<DenimChunk> = chunks.into_iter().filter(|c| !c.is_dummy()).collect();
        let guids: Vec<Vec<u8>> = real
            .iter()
            .map(|_| {
                guid += 1;
                vec![guid]
            })
            .collect();
        m.set_incoming_chunks(addr(1), &real, &guids);
        if had_final {
            break;
        }
    }
    let stored = m.get_all_chunks(addr(1), Buffer::Sender).unwrap();
    let (payloads, pending) = create_deniable_payloads(stored);
    assert_eq!(payloads, vec![payload]);
    assert!(pending.is_empty());
}

#[test]
fn routing_decisions_per_payload_kind() {
    let sender = b"alice".to_vec();
    // A key request earns a key response on the sender's own channel.
    match route_deniable_payload(
        DeniablePayload::KeyRequest(denim_core::payload::PreKeyRequest {
            service_id: b"bob".to_vec(),
        }),
        &sender,
        3,
        99,
    ) {
        InboundAction::ReplyKeyResponse { target_service_id } => {
            assert_eq!(target_service_id, b"bob".to_vec());
        },
        _ => panic!("a key request must earn a key response"),
    }
    // A ciphertext message becomes an envelope for its destination.
    match route_deniable_payload(sample_message("hi"), &sender, 3, 99) {
        InboundAction::DeliverEnvelope { destination_service_id, envelope } => {
            assert_eq!(destination_service_id, b"bob".to_vec());
            assert_eq!(envelope.source_service_id, sender);
            assert_eq!(envelope.source_device_id, 3);
            assert_eq!(envelope.timestamp, 99);
            assert_eq!(envelope.content, b"hi".to_vec());
        },
        _ => panic!("a message must be delivered"),
    }
    // An inbound key response is not accepted.
    match route_deniable_payload(
        DeniablePayload::KeyResponse(PreKeyResponse {
            service_id: vec![],
            identity_key: vec![],
            items: vec![],
        }),
        &sender,
        3,
        99,
    ) {
        InboundAction::Discard => {},
        _ => panic!("an inbound key response is discarded"),
    }
}

#[test]
fn deniable_bootstrap_scenario() {
    // From no session, two covert sends stash both texts behind one key
    // request; the key response establishes the session and the stash is
    // sent, in order.
    let mut c = ClientDenimState::new(q06());
    let sid = b"peer-x".to_vec();
    let alias = b"x".to_vec();
    assert!(!c.has_deniable_session(&sid));
    c.add_deniable_contact_and_queue_message(&sid, &b"a".to_vec(), &alias);
    c.add_deniable_contact_and_queue_message(&sid, &b"b".to_vec(), &alias);
    // Exactly one key request is queued.
    let queued = c.outgoing_payloads();
    assert_eq!(queued.len(), 1);
    assert_eq!(
        queued[0],
        encode_payload(&DeniablePayload::KeyRequest(denim_core::payload::PreKeyRequest {
            service_id: sid.clone(),
        }))
    );
    assert_eq!(c.try_get_key_request_sent(&sid), Some(alias.clone()));
    assert_eq!(
        c.get_messages_awaiting_encryption(&alias),
        vec![b"a".to_vec(), b"b".to_vec()]
    );
    // Sending before the session exists is refused.
    let refused = c.send_deniable_message(
        &sid,
        SignalMessage {
            message_type: 1,
            destination_device_id: 1,
            destination_registration_id: 1,
            destination_service_id: sid.clone(),
            content: b"a".to_vec(),
        },
    );
    assert_eq!(refused, Err(DenimError::NoSuchSession));
    // The key response arrives: session established, stash handed back.
    let stash = c.process_key_response(&sid);
    assert_eq!(stash, vec![b"a".to_vec(), b"b".to_vec()]);
    assert!(c.has_deniable_session(&sid));
    assert_eq!(c.try_get_key_request_sent(&sid), None);
    // Each stashed text is encrypted and sent, in order.
    for text in &stash {
        let ct = SignalMessage {
            message_type: 1,
            destination_device_id: 1,
            destination_registration_id: 1,
            destination_service_id: sid.clone(),
            content: text.clone(),
        };
        c.send_deniable_message(&sid, ct).unwrap();
    }
    let queued = c.outgoing_payloads();
    assert_eq!(queued.len(), 3);
    match decode_payload_of(&queued[1]) {
        DeniablePayload::SignalMessage(sm) => assert_eq!(sm.content, b"a".to_vec()),
        _ => panic!("expected a message"),
    }
    match decode_payload_of(&queued[2]) {
        DeniablePayload::SignalMessage(sm) => assert_eq!(sm.content, b"b".to_vec()),
        _ => panic!("expected a message"),
    }
}

fn decode_payload_of(bytes: &Vec<u8>) -> DeniablePayload {
    denim_core::codec::decode_payload(bytes).expect("queued payloads decode")
}

#[test]
fn client_reassembles_across_arrivals() {
    let mut c = ClientDenimState::new(q06());
    let payload = sample_message("A message to Bob is here written");
    let data = encode_payload(&payload);
    let first = DenimChunk { chunk: data[..8].to_vec(), flags: 0 };
    let rest = DenimChunk { chunk: data[8..].to_vec(), flags: FINAL_FLAG };
    let none = c.handle_incoming_chunks(vec![first]);
    assert!(none.is_empty());
    let done = c.handle_incoming_chunks(vec![rest]);
    assert_eq!(done, vec![payload]);
}

#[test]
fn save_and_get_identity_test() {
    let mut store = SessionStore::new();
    let peer = b"bob".to_vec();
    assert!(store.get_identity(&peer).is_none());
    store.save_identity(&peer, vec![1, 2, 3]);
    assert_eq!(store.get_identity(&peer), Some(vec![1, 2, 3]));
    store.save_identity(&peer, vec![4]);
    assert_eq!(store.get_identity(&peer), Some(vec![4]));
}

#[test]
fn is_trusted_identity_test() {
    let mut store = SessionStore::new();
    let peer = b"bob".to_vec();
    // Trust on first use: an unknown peer is trusted.
    assert!(store.is_trusted_identity(&peer, &vec![1]));
    store.save_identity(&peer, vec![1]);
    assert!(store.is_trusted_identity(&peer, &vec![1]));
    assert!(!store.is_trusted_identity(&peer, &vec![2]));
}

#[test]
fn load_and_store_session_test() {
    let mut store = SessionStore::new();
    let peer = b"bob".to_vec();
    assert!(store.load_session(&peer).is_none());
    store.store_session(&peer, vec![9, 9]);
    assert_eq!(store.load_session(&peer), Some(vec![9, 9]));
    store.store_session(&peer, vec![8]);
    assert_eq!(store.load_session(&peer), Some(vec![8]));
}

#[test]
fn ratchet_stores_stay_disjoint() {
    // Interleaved overt and deniable writes: each channel sees only its own.
    let mut dev = DeviceStorage::new();
    let peer = b"bob".to_vec();
    dev.store_session(&peer, vec![1]);
    dev.store_deniable_session(&peer, vec![2]);
    dev.save_identity(&peer, vec![3]);
    dev.save_deniable_identity(&peer, vec![4]);
    dev.store_session(&peer, vec![5]);
    assert_eq!(dev.load_session(&peer), Some(vec![5]));
    assert_eq!(dev.load_deniable_session(&peer), Some(vec![2]));
    // Overt-only traffic never moves the deniable store.
    let mut dev2 = DeviceStorage::new();
    dev2.store_session(&peer, vec![1]);
    dev2.save_identity(&peer, vec![3]);
    assert!(dev2.load_deniable_session(&peer).is_none());
}

struct CountingListener {
    cached: u32,
    persisted: u32,
}

impl AvailabilityListener for CountingListener {
    fn send_cached(&mut self) -> bool {
        self.cached += 1;
        true
    }

    fn send_persisted(&mut self) -> bool {
        self.persisted += 1;
        true
    }
}

#[test]
fn listeners_wake_per_address() {
    let mut reg: ListenerRegistry<CountingListener> = ListenerRegistry::new();
    reg.add_listener(addr(1), CountingListener { cached: 0, persisted: 0 });
    assert!(reg.notify_cached(addr(1)));
    assert!(!reg.notify_cached(addr(2)));
    assert!(reg.notify_persisted(addr(1)));
    reg.remove_listener(addr(1));
    assert!(!reg.notify_cached(addr(1)));
}

#[test]
fn chunk_cache_test_insert() {
    let mut m = DenIMManager::new(q06());
    let chunk = DenimChunk { chunk: vec![1, 2, 3], flags: 0 };
    m.insert_chunk(addr(1), Buffer::Sender, &chunk, &b"guid".to_vec());
    let stored = m.get_all_chunks(addr(1), Buffer::Sender).unwrap();
    assert_eq!(stored, vec![chunk]);
}

#[test]
fn payload_cache_test_insert() {
    let mut m = DenIMManager::new(q06());
    let payload = sample_message("A message to Bob is here written");
    m.insert_payload(addr(1), Buffer::Receiver, &payload, &b"guid".to_vec());
    let stored = m.get_deniable_payloads(addr(1)).unwrap();
    assert_eq!(stored, vec![payload]);
}

#[test]
fn payload_cache_test_remove() {
    let mut q = BufferQueue::new();
    let payload = sample_message("A message to Bob is here written");
    q.insert(&b"guid".to_vec(), encode_payload(&payload));
    let removed = q.remove(&vec![b"guid".to_vec()]);
    assert_eq!(removed, vec![encode_payload(&payload)]);
    let (values, _) = q.get_values(0);
    assert!(values.is_empty());
}

#[test]
fn chunk_cache_test_remove() {
    let mut m = DenIMManager::new(q06());
    let chunk = DenimChunk { chunk: vec![4], flags: FINAL_FLAG };
    m.insert_chunk(addr(1), Buffer::Sender, &chunk, &b"g".to_vec());
    let taken = m.take_all_chunks(addr(1), Buffer::Sender).unwrap();
    assert_eq!(taken, vec![chunk]);
    assert!(m.get_all_chunks(addr(1), Buffer::Sender).unwrap().is_empty());
}

#[test]
fn persister_walks_oldest_queues_first() {
    let mut index = PersistenceIndex::new();
    let k1 = QueueId { address: addr(1), role: Buffer::Receiver };
    let k2 = QueueId { address: addr(2), role: Buffer::Receiver };
    let k3 = QueueId { address: addr(3), role: Buffer::Sender };
    index.register(k1, 100);
    index.register(k2, 150);
    // A queue already registered keeps its original registration time.
    index.register(k1, 160);
    index.register(k3, 200);
    assert_eq!(index.due(150), vec![k1, k2]);
    assert_eq!(index.due(99).len(), 0);
    index.deregister(k1);
    assert_eq!(index.due(150), vec![k2]);
}

#[test]
fn persist_cycle_locks_then_signals() {
    // The full persist round: lock, observe cover traffic, unlock, signal.
    let mut q = BufferQueue::new();
    q.insert(&b"g".to_vec(), vec![1, 2, 3]);
    q.lock_for_persistence();
    let (bytes, taken, flag) = q.dequeue(3);
    assert_eq!((bytes, taken, flag), (vec![], 0, DUMMY_FLAG));
    q.unlock_after_persistence();
    let mut reg: ListenerRegistry<CountingListener> = ListenerRegistry::new();
    reg.add_listener(addr(1), CountingListener { cached: 0, persisted: 0 });
    assert!(reg.notify_persisted(addr(1)));
    let (bytes, taken, flag) = q.dequeue(3);
    assert_eq!((bytes, taken, flag), (vec![1, 2, 3], 3, FINAL_FLAG));
}

#[test]
fn insert_registers_queue_and_wakes_listener() {
    // The composed insert: the payload is stored, the queue joins the
    // global time-ordered index once, and the cached-data signal fires.
    let mut m = DenIMManager::new(q06());
    let mut index = PersistenceIndex::new();
    let mut reg: ListenerRegistry<CountingListener> = ListenerRegistry::new();
    reg.add_listener(addr(1), CountingListener { cached: 0, persisted: 0 });
    let p = sample_message("A message to Bob is here written");
    let woke = denim_core::persistence::insert_payload_notifying(
        &mut m,
        &mut index,
        &mut reg,
        addr(1),
        &p,
        &b"g1".to_vec(),
        100,
    );
    let _ = woke;
    denim_core::persistence::insert_payload_notifying(
        &mut m,
        &mut index,
        &mut reg,
        addr(1),
        &p,
        &b"g1".to_vec(),
        150,
    );
    let k = QueueId { address: addr(1), role: Buffer::Receiver };
    // Registered once, under the first insert's clock reading.
    assert_eq!(index.due(100), vec![k]);
    assert_eq!(m.get_deniable_payloads(addr(1)).unwrap(), vec![p.clone()]);
    // Emptying the queue by guid deregisters it.
    let mut q = BufferQueue::new();
    q.insert(&b"g1".to_vec(), denim_core::codec::encode_payload(&p));
    let mut index2 = PersistenceIndex::new();
    index2.register(k, 100);
    let removed = denim_core::persistence::remove_values_deregistering(
        &mut q,
        &mut index2,
        k,
        &vec![b"g1".to_vec()],
    );
    assert_eq!(removed.len(), 1);
    assert_eq!(index2.due(u64::MAX).len(), 0);
}

#[test]
fn error_kinds_have_messages() {
    assert_eq!(DenimError::NoSuchSession.message(), "no such session");
    assert_eq!(DenimError::LockContention.message(), "lock contention");
    assert_eq!(DenimError::PartialPayloadLost.message(), "partial payload lost");
}

#[test]
fn sample_builders_build_each_kind() {
    // The sample chunk is the default shape: empty payload, flag zero.
    let c = generate_chunk();
    assert!(c.chunk.is_empty());
    assert_eq!(c.flags, 0);
    assert!(c.is_data());
    match generate_payload(DeniablePayloadType::SignalMessage) {
        DeniablePayload::SignalMessage(sm) => {
            assert_eq!(sm.message_type, 0);
            assert!(sm.content.is_empty());
        },
        _ => panic!("expected a message sample"),
    }
    assert!(matches!(
        generate_payload(DeniablePayloadType::Envelope),
        DeniablePayload::Envelope(_)
    ));
    match generate_payload(DeniablePayloadType::KeyRequest) {
        DeniablePayload::KeyRequest(kr) => assert_eq!(kr.service_id, b"1".to_vec()),
        _ => panic!("expected a key request sample"),
    }
    match generate_payload(DeniablePayloadType::KeyResponse) {
        DeniablePayload::KeyResponse(kr) => {
            assert_eq!(kr.service_id, b"1".to_vec());
            assert_eq!(kr.items.len(), 1);
        },
        _ => panic!("expected a key response sample"),
    }
    let session = VerifiedSession::new(String::from("s-1"));
    assert_eq!(session.session_id(), "s-1");
}
