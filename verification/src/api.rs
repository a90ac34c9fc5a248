//! Small request and session types around the core.

use vstd::prelude::*;

use crate::chunk::DenimChunk;
use crate::payload::{
    DeniablePayload, EnvelopeData, EnvelopeModel, KeyResponseModel, PayloadModel, PreKeyItem,
    PreKeyItemModel, PreKeyRequest, PreKeyResponse, SignalMessage, SignalMessageModel,
};

verus! {

/// A session the server has verified; its identifier names it.
pub struct VerifiedSession {
    session_id: String,
}

impl VerifiedSession {
    /// The identifier of this session, as a specification value.
    pub closed spec fn spec_session_id(&self) -> Seq<char> {
        self.session_id@
    }

    pub fn new(session_id: String) -> (r: VerifiedSession)
        ensures
            r.spec_session_id() == session_id@,
    {
        VerifiedSession { session_id }
    }

    /// The identifier of this session.
    pub fn session_id(&self) -> (r: &String)
        ensures
            r@ == self.spec_session_id(),
    {
        &self.session_id
    }
}

/// Query parameters of a message put.
pub struct PutV1MessageParams {
    pub story: bool,
}

/// A key-check request: which identity to check and the caller's digest.
pub struct CheckKeysRequest {
    pub identity_type: String,
    pub user_digest: Vec<u8>,
}

/// Which deniable payload kind to build a sample of.
pub enum DeniablePayloadType {
    SignalMessage,
    Envelope,
    KeyRequest,
    KeyResponse,
}

/// A sample chunk in its default shape: empty payload, flag zero — an
/// empty data chunk of rank zero.
pub fn generate_chunk() -> (r: DenimChunk)
    ensures
        r.chunk@.len() == 0,
        r.flags == 0,
{
    DenimChunk { chunk: Vec::new(), flags: 0 }
}

/// A sample payload of the asked-for kind: a default-shaped message or
/// envelope, a key request for the service identifier `"1"`, or a key
/// response for it with one sample prekey item.  (The original samples
/// draw fresh identifiers and keys; randomness lives outside the core, so
/// the samples here are fixed.)
pub fn generate_payload(payload_type: DeniablePayloadType) -> (r: DeniablePayload)
    ensures
        ({
            let one = seq![49u8];
            match payload_type {
                DeniablePayloadType::SignalMessage => r.model() == PayloadModel::SignalMessage(
                    SignalMessageModel {
                        message_type: 0,
                        destination_device_id: 0,
                        destination_registration_id: 0,
                        destination_service_id: Seq::<u8>::empty(),
                        content: Seq::<u8>::empty(),
                    },
                ),
                DeniablePayloadType::Envelope => r.model() == PayloadModel::Envelope(
                    EnvelopeModel {
                        envelope_type: 0,
                        source_service_id: Seq::<u8>::empty(),
                        source_device_id: 0,
                        destination_service_id: Seq::<u8>::empty(),
                        content: Seq::<u8>::empty(),
                        timestamp: 0,
                    },
                ),
                DeniablePayloadType::KeyRequest => r.model() == PayloadModel::KeyRequest(one),
                DeniablePayloadType::KeyResponse => r.model() == PayloadModel::KeyResponse(
                    KeyResponseModel {
                        service_id: one,
                        identity_key: seq![7u8],
                        items: seq![
                            PreKeyItemModel {
                                device_id: 1,
                                registration_id: 1,
                                bundle: seq![1u8],
                            },
                        ],
                    },
                ),
            }
        }),
{
    match payload_type {
        DeniablePayloadType::SignalMessage => DeniablePayload::SignalMessage(
            SignalMessage {
                message_type: 0,
                destination_device_id: 0,
                destination_registration_id: 0,
                destination_service_id: Vec::new(),
                content: Vec::new(),
            },
        ),
        DeniablePayloadType::Envelope => DeniablePayload::Envelope(
            EnvelopeData {
                envelope_type: 0,
                source_service_id: Vec::new(),
                source_device_id: 0,
                destination_service_id: Vec::new(),
                content: Vec::new(),
                timestamp: 0,
            },
        ),
        DeniablePayloadType::KeyRequest => {
            let mut service_id: Vec<u8> = Vec::new();
            service_id.push(49);
            proof {
                assert(service_id@ =~= seq![49u8]);
            }
            DeniablePayload::KeyRequest(PreKeyRequest { service_id })
        },
        DeniablePayloadType::KeyResponse => {
            let mut service_id: Vec<u8> = Vec::new();
            service_id.push(49);
            let mut identity_key: Vec<u8> = Vec::new();
            identity_key.push(7);
            let mut bundle: Vec<u8> = Vec::new();
            bundle.push(1);
            let mut items: Vec<PreKeyItem> = Vec::new();
            items.push(PreKeyItem { device_id: 1, registration_id: 1, bundle });
            let r = DeniablePayload::KeyResponse(
                PreKeyResponse { service_id, identity_key, items },
            );
            proof {
                assert(r.model()->KeyResponse_0.service_id =~= seq![49u8]);
                assert(r.model()->KeyResponse_0.identity_key =~= seq![7u8]);
                assert(r.model()->KeyResponse_0.items =~= seq![
                    PreKeyItemModel { device_id: 1, registration_id: 1, bundle: seq![1u8] },
                ]);
                assert(r.model()->KeyResponse_0 =~= (KeyResponseModel {
                    service_id: seq![49u8],
                    identity_key: seq![7u8],
                    items: seq![
                        PreKeyItemModel { device_id: 1, registration_id: 1, bundle: seq![1u8] },
                    ],
                }));
            }
            r
        },
    }
}

} // verus!
