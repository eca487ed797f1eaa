//! Version numbers, limits and the bytes of envelopes.

use vstd::prelude::*;

use crate::error::{ProtocolError, ProtocolErrorView};
use crate::message;
use crate::wire::envelope::{Envelope, EnvelopeView, Payload};

verus! {

pub const PROTOCOL_MAJOR: u16 = 1;

pub const PROTOCOL_MINOR: u16 = 0;

/// The largest body of a frame.
pub const MAX_FRAME_SIZE: usize = 1_048_576;

/// How much file data one frame carries.
pub const DEFAULT_DATA_FRAME_SIZE: usize = 262_144;

/// The chunk size of a snapshot that asks for none.
pub const DEFAULT_CHUNK_SIZE: u32 = 8_388_608;

/// The largest file that travels in a batch.
pub const MAX_SMALL_FILE_SIZE: u64 = 262_144;

/// How many files one batch may hold.
pub const MAX_SMALL_FILE_BATCH_COUNT: usize = 256;

/// How many bytes the files of one batch may have together.
pub const MAX_SMALL_FILE_BATCH_BYTES: u64 = 4_194_304;

/// The features that this version knows, a bit for each.
pub const SUPPORTED_FEATURES: u64 = 0b1111;

/// The error for bytes that hold no envelope.
pub open spec fn decode_failure() -> ProtocolErrorView {
    ProtocolErrorView::Protocol("failed to decode Protobuf message"@)
}

/// The bytes of an envelope.
pub fn encode_envelope(envelope: &Envelope) -> (data: Result<Vec<u8>, ProtocolError>)
    ensures
        data matches Ok(bytes) && bytes@ == message::encoded(envelope@),
{
    Ok(message::encode(envelope))
}

/// The envelope that `data` holds.
pub fn decode_envelope(data: &[u8]) -> (envelope: Result<Envelope, ProtocolError>)
    ensures
        match message::decoded::<EnvelopeView>(data@) {
            Some(model) => envelope matches Ok(e) && e@ == model,
            None => envelope matches Err(e) && e@ == decode_failure(),
        },
{
    match message::decode::<Envelope>(data) {
        Some(envelope) => Ok(envelope),
        None => Err(ProtocolError::Protocol("failed to decode Protobuf message".to_owned())),
    }
}

/// An envelope around a message.
pub fn envelope(payload: Payload) -> (envelope: Envelope)
    ensures
        envelope@ == (EnvelopeView { payload: Some(payload@) }),
{
    Envelope { payload: Some(payload) }
}

/// Decoding the bytes of an envelope gives the envelope back, as long as its
/// length is a 64-bit number.
pub proof fn law_envelope_roundtrip(envelope: EnvelopeView)
    requires
        message::encoded(envelope).len() <= u64::MAX,
    ensures
        message::decoded::<EnvelopeView>(message::encoded(envelope)) == Some(envelope),
{
    message::lemma_roundtrip(envelope);
}

/// Two envelopes with the same bytes are the same envelope.
pub proof fn law_envelope_bytes_injective(a: EnvelopeView, b: EnvelopeView)
    requires
        message::encoded(a).len() <= u64::MAX,
        message::encoded(a) == message::encoded(b),
    ensures
        a == b,
{
    message::lemma_roundtrip(a);
    message::lemma_roundtrip(b);
}

} // verus!
