//! Deniable payloads: what travels, reassembled, inside the covert channel.
//!
//! A payload is a ciphertext message bound for a peer, a server-built
//! envelope on its way back down, or one half of the server-mediated prekey
//! exchange that bootstraps a covert session without a visible key fetch.

use vstd::prelude::*;

verus! {

/// A ciphertext message addressed to one device of a peer.
#[derive(Clone, PartialEq, Eq, Debug)]
pub struct SignalMessage {
    pub message_type: u32,
    pub destination_device_id: u32,
    pub destination_registration_id: u32,
    pub destination_service_id: Vec<u8>,
    pub content: Vec<u8>,
}

/// The part of a server envelope the deniable channel carries.
#[derive(Clone, PartialEq, Eq, Debug)]
pub struct EnvelopeData {
    pub envelope_type: u32,
    pub source_service_id: Vec<u8>,
    pub source_device_id: u32,
    pub destination_service_id: Vec<u8>,
    pub content: Vec<u8>,
    pub timestamp: u64,
}

/// A covert request for a peer's prekey bundle.
#[derive(Clone, PartialEq, Eq, Debug)]
pub struct PreKeyRequest {
    pub service_id: Vec<u8>,
}

/// One device's prekey material inside a key response.
#[derive(Clone, PartialEq, Eq, Debug)]
pub struct PreKeyItem {
    pub device_id: u32,
    pub registration_id: u32,
    pub bundle: Vec<u8>,
}

/// The covert answer to a key request: the peer's identity key and one
/// prekey item per device.
#[derive(Clone, PartialEq, Eq, Debug)]
pub struct PreKeyResponse {
    pub service_id: Vec<u8>,
    pub identity_key: Vec<u8>,
    pub items: Vec<PreKeyItem>,
}

/// A deniable payload, as carried chunked inside overt packets.
#[derive(Clone, PartialEq, Eq, Debug)]
pub enum DeniablePayload {
    SignalMessage(SignalMessage),
    Envelope(EnvelopeData),
    KeyRequest(PreKeyRequest),
    KeyResponse(PreKeyResponse),
}

/// Mathematical image of a ciphertext message.
#[verifier::ext_equal]
pub ghost struct SignalMessageModel {
    pub message_type: u32,
    pub destination_device_id: u32,
    pub destination_registration_id: u32,
    pub destination_service_id: Seq<u8>,
    pub content: Seq<u8>,
}

/// Mathematical image of a carried envelope.
#[verifier::ext_equal]
pub ghost struct EnvelopeModel {
    pub envelope_type: u32,
    pub source_service_id: Seq<u8>,
    pub source_device_id: u32,
    pub destination_service_id: Seq<u8>,
    pub content: Seq<u8>,
    pub timestamp: u64,
}

/// Mathematical image of one prekey item.
#[verifier::ext_equal]
pub ghost struct PreKeyItemModel {
    pub device_id: u32,
    pub registration_id: u32,
    pub bundle: Seq<u8>,
}

/// Mathematical image of a key response.
#[verifier::ext_equal]
pub ghost struct KeyResponseModel {
    pub service_id: Seq<u8>,
    pub identity_key: Seq<u8>,
    pub items: Seq<PreKeyItemModel>,
}

/// Mathematical image of a deniable payload.
#[verifier::ext_equal]
pub ghost enum PayloadModel {
    SignalMessage(SignalMessageModel),
    Envelope(EnvelopeModel),
    KeyRequest(Seq<u8>),
    KeyResponse(KeyResponseModel),
}

impl SignalMessage {
    pub open spec fn model(&self) -> SignalMessageModel {
        SignalMessageModel {
            message_type: self.message_type,
            destination_device_id: self.destination_device_id,
            destination_registration_id: self.destination_registration_id,
            destination_service_id: self.destination_service_id@,
            content: self.content@,
        }
    }
}

impl EnvelopeData {
    pub open spec fn model(&self) -> EnvelopeModel {
        EnvelopeModel {
            envelope_type: self.envelope_type,
            source_service_id: self.source_service_id@,
            source_device_id: self.source_device_id,
            destination_service_id: self.destination_service_id@,
            content: self.content@,
            timestamp: self.timestamp,
        }
    }
}

impl PreKeyItem {
    pub open spec fn model(&self) -> PreKeyItemModel {
        PreKeyItemModel {
            device_id: self.device_id,
            registration_id: self.registration_id,
            bundle: self.bundle@,
        }
    }
}

impl PreKeyResponse {
    pub open spec fn model(&self) -> KeyResponseModel {
        KeyResponseModel {
            service_id: self.service_id@,
            identity_key: self.identity_key@,
            items: self.items@.map_values(|it: PreKeyItem| it.model()),
        }
    }
}

impl DeniablePayload {
    pub open spec fn model(&self) -> PayloadModel {
        match self {
            DeniablePayload::SignalMessage(sm) => PayloadModel::SignalMessage(sm.model()),
            DeniablePayload::Envelope(e) => PayloadModel::Envelope(e.model()),
            DeniablePayload::KeyRequest(kr) => PayloadModel::KeyRequest(kr.service_id@),
            DeniablePayload::KeyResponse(kr) => PayloadModel::KeyResponse(kr.model()),
        }
    }
}

} // verus!
