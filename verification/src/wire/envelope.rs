//! The envelope that every control message travels in.

use vstd::prelude::*;

use crate::fields;
use crate::fields::{Field, FieldValue, RawField, RawValue};
use crate::message;
use crate::message::{Message, Model};
use crate::wire::session::{AuthChallenge, AuthChallengeView, AuthFinish, AuthFinishView, AuthResult, AuthResultView, AuthStart, AuthStartView, Hello, HelloView, SessionAttach, SessionAttachView, VersionReject, VersionRejectView};
use crate::wire::listing::{ListEntriesRequest, ListEntriesRequestView, ListEntriesResponse, ListEntriesResponseView, ListSharesRequest, ListSharesRequestView, ListSharesResponse, ListSharesResponseView};
use crate::wire::snapshot::{CreateSnapshotRequest, CreateSnapshotRequestView, SnapshotManifest, SnapshotManifestPage, SnapshotManifestPageView, SnapshotManifestView, SnapshotProgress, SnapshotProgressView};
use crate::wire::transfer::{Cancel, CancelView, ChunkComplete, ChunkCompleteView, ChunkRequest, ChunkRequestView, Error, ErrorView, Ping, PingView, Pong, PongView, SmallFileBatchComplete, SmallFileBatchCompleteView, SmallFileBatchRequest, SmallFileBatchRequestView, SmallFileComplete, SmallFileCompleteView};

verus! {

/// The messages.
#[derive(Debug)]
pub enum Payload {
    Hello(Hello),
    VersionReject(VersionReject),
    ListSharesRequest(ListSharesRequest),
    ListSharesResponse(ListSharesResponse),
    AuthStart(AuthStart),
    AuthChallenge(AuthChallenge),
    AuthFinish(AuthFinish),
    AuthResult(AuthResult),
    SessionAttach(SessionAttach),
    ListEntriesRequest(ListEntriesRequest),
    ListEntriesResponse(ListEntriesResponse),
    CreateSnapshotRequest(CreateSnapshotRequest),
    SnapshotProgress(SnapshotProgress),
    SnapshotManifest(SnapshotManifest),
    SnapshotManifestPage(SnapshotManifestPage),
    SmallFileBatchRequest(SmallFileBatchRequest),
    SmallFileComplete(SmallFileComplete),
    SmallFileBatchComplete(SmallFileBatchComplete),
    ChunkRequest(ChunkRequest),
    ChunkComplete(ChunkComplete),
    Ping(Ping),
    Pong(Pong),
    Cancel(Cancel),
    Error(Error),
}

/// The model of a [`Payload`].
#[verifier::ext_equal]
pub enum PayloadView {
    Hello(HelloView),
    VersionReject(VersionRejectView),
    ListSharesRequest(ListSharesRequestView),
    ListSharesResponse(ListSharesResponseView),
    AuthStart(AuthStartView),
    AuthChallenge(AuthChallengeView),
    AuthFinish(AuthFinishView),
    AuthResult(AuthResultView),
    SessionAttach(SessionAttachView),
    ListEntriesRequest(ListEntriesRequestView),
    ListEntriesResponse(ListEntriesResponseView),
    CreateSnapshotRequest(CreateSnapshotRequestView),
    SnapshotProgress(SnapshotProgressView),
    SnapshotManifest(SnapshotManifestView),
    SnapshotManifestPage(SnapshotManifestPageView),
    SmallFileBatchRequest(SmallFileBatchRequestView),
    SmallFileComplete(SmallFileCompleteView),
    SmallFileBatchComplete(SmallFileBatchCompleteView),
    ChunkRequest(ChunkRequestView),
    ChunkComplete(ChunkCompleteView),
    Ping(PingView),
    Pong(PongView),
    Cancel(CancelView),
    Error(ErrorView),
}

impl View for Payload {
    type V = PayloadView;

    open spec fn view(&self) -> PayloadView {
        match self {
            Payload::Hello(message) => PayloadView::Hello(message@),
            Payload::VersionReject(message) => PayloadView::VersionReject(message@),
            Payload::ListSharesRequest(message) => PayloadView::ListSharesRequest(message@),
            Payload::ListSharesResponse(message) => PayloadView::ListSharesResponse(message@),
            Payload::AuthStart(message) => PayloadView::AuthStart(message@),
            Payload::AuthChallenge(message) => PayloadView::AuthChallenge(message@),
            Payload::AuthFinish(message) => PayloadView::AuthFinish(message@),
            Payload::AuthResult(message) => PayloadView::AuthResult(message@),
            Payload::SessionAttach(message) => PayloadView::SessionAttach(message@),
            Payload::ListEntriesRequest(message) => PayloadView::ListEntriesRequest(message@),
            Payload::ListEntriesResponse(message) => PayloadView::ListEntriesResponse(message@),
            Payload::CreateSnapshotRequest(message) => PayloadView::CreateSnapshotRequest(message@),
            Payload::SnapshotProgress(message) => PayloadView::SnapshotProgress(message@),
            Payload::SnapshotManifest(message) => PayloadView::SnapshotManifest(message@),
            Payload::SnapshotManifestPage(message) => PayloadView::SnapshotManifestPage(message@),
            Payload::SmallFileBatchRequest(message) => PayloadView::SmallFileBatchRequest(message@),
            Payload::SmallFileComplete(message) => PayloadView::SmallFileComplete(message@),
            Payload::SmallFileBatchComplete(message) => PayloadView::SmallFileBatchComplete(message@),
            Payload::ChunkRequest(message) => PayloadView::ChunkRequest(message@),
            Payload::ChunkComplete(message) => PayloadView::ChunkComplete(message@),
            Payload::Ping(message) => PayloadView::Ping(message@),
            Payload::Pong(message) => PayloadView::Pong(message@),
            Payload::Cancel(message) => PayloadView::Cancel(message@),
            Payload::Error(message) => PayloadView::Error(message@),
        }
    }
}

/// A control message, or none.
#[derive(Debug)]
pub struct Envelope {
    pub payload: Option<Payload>,
}

/// The model of an [`Envelope`].
#[verifier::ext_equal]
pub struct EnvelopeView {
    pub payload: Option<PayloadView>,
}

impl View for Envelope {
    type V = EnvelopeView;

    open spec fn view(&self) -> EnvelopeView {
        EnvelopeView {
            payload: match self.payload {
                Some(payload) => Some(payload@),
                None => None,
            },
        }
    }
}

impl PayloadView {
    /// The number of the field that the message travels in.
    pub open spec fn tag(self) -> u32 {
        match self {
            PayloadView::Hello(_) => 1,
            PayloadView::VersionReject(_) => 2,
            PayloadView::ListSharesRequest(_) => 3,
            PayloadView::ListSharesResponse(_) => 4,
            PayloadView::AuthStart(_) => 5,
            PayloadView::AuthChallenge(_) => 6,
            PayloadView::AuthFinish(_) => 7,
            PayloadView::AuthResult(_) => 8,
            PayloadView::SessionAttach(_) => 9,
            PayloadView::ListEntriesRequest(_) => 10,
            PayloadView::ListEntriesResponse(_) => 11,
            PayloadView::CreateSnapshotRequest(_) => 12,
            PayloadView::SnapshotProgress(_) => 13,
            PayloadView::SnapshotManifest(_) => 14,
            PayloadView::SnapshotManifestPage(_) => 15,
            PayloadView::SmallFileBatchRequest(_) => 16,
            PayloadView::SmallFileComplete(_) => 17,
            PayloadView::SmallFileBatchComplete(_) => 18,
            PayloadView::ChunkRequest(_) => 19,
            PayloadView::ChunkComplete(_) => 20,
            PayloadView::Ping(_) => 21,
            PayloadView::Pong(_) => 22,
            PayloadView::Cancel(_) => 23,
            PayloadView::Error(_) => 24,
        }
    }

    /// The bytes of the message.
    pub open spec fn encoded(self) -> Seq<u8> {
        match self {
            PayloadView::Hello(message) => message::encoded(message),
            PayloadView::VersionReject(message) => message::encoded(message),
            PayloadView::ListSharesRequest(message) => message::encoded(message),
            PayloadView::ListSharesResponse(message) => message::encoded(message),
            PayloadView::AuthStart(message) => message::encoded(message),
            PayloadView::AuthChallenge(message) => message::encoded(message),
            PayloadView::AuthFinish(message) => message::encoded(message),
            PayloadView::AuthResult(message) => message::encoded(message),
            PayloadView::SessionAttach(message) => message::encoded(message),
            PayloadView::ListEntriesRequest(message) => message::encoded(message),
            PayloadView::ListEntriesResponse(message) => message::encoded(message),
            PayloadView::CreateSnapshotRequest(message) => message::encoded(message),
            PayloadView::SnapshotProgress(message) => message::encoded(message),
            PayloadView::SnapshotManifest(message) => message::encoded(message),
            PayloadView::SnapshotManifestPage(message) => message::encoded(message),
            PayloadView::SmallFileBatchRequest(message) => message::encoded(message),
            PayloadView::SmallFileComplete(message) => message::encoded(message),
            PayloadView::SmallFileBatchComplete(message) => message::encoded(message),
            PayloadView::ChunkRequest(message) => message::encoded(message),
            PayloadView::ChunkComplete(message) => message::encoded(message),
            PayloadView::Ping(message) => message::encoded(message),
            PayloadView::Pong(message) => message::encoded(message),
            PayloadView::Cancel(message) => message::encoded(message),
            PayloadView::Error(message) => message::encoded(message),
        }
    }

    /// The message once `data` was read as one with the number `tag`: what was
    /// there before stays where it has the same number. `None` where `tag` is
    /// no number of a message or `data` cannot be read.
    pub open spec fn merge(before: Option<PayloadView>, tag: u32, data: Seq<u8>) -> Option<
        PayloadView,
    > {
        if tag == 1 {
            let start = match before {
                Some(PayloadView::Hello(message)) => message,
                _ => HelloView::empty(),
            };
            match message::merged_with(start, data) {
                Some(message) => Some(PayloadView::Hello(message)),
                None => None,
            }
        } else if tag == 2 {
            let start = match before {
                Some(PayloadView::VersionReject(message)) => message,
                _ => VersionRejectView::empty(),
            };
            match message::merged_with(start, data) {
                Some(message) => Some(PayloadView::VersionReject(message)),
                None => None,
            }
        } else if tag == 3 {
            let start = match before {
                Some(PayloadView::ListSharesRequest(message)) => message,
                _ => ListSharesRequestView::empty(),
            };
            match message::merged_with(start, data) {
                Some(message) => Some(PayloadView::ListSharesRequest(message)),
                None => None,
            }
        } else if tag == 4 {
            let start = match before {
                Some(PayloadView::ListSharesResponse(message)) => message,
                _ => ListSharesResponseView::empty(),
            };
            match message::merged_with(start, data) {
                Some(message) => Some(PayloadView::ListSharesResponse(message)),
                None => None,
            }
        } else if tag == 5 {
            let start = match before {
                Some(PayloadView::AuthStart(message)) => message,
                _ => AuthStartView::empty(),
            };
            match message::merged_with(start, data) {
                Some(message) => Some(PayloadView::AuthStart(message)),
                None => None,
            }
        } else if tag == 6 {
            let start = match before {
                Some(PayloadView::AuthChallenge(message)) => message,
                _ => AuthChallengeView::empty(),
            };
            match message::merged_with(start, data) {
                Some(message) => Some(PayloadView::AuthChallenge(message)),
                None => None,
            }
        } else if tag == 7 {
            let start = match before {
                Some(PayloadView::AuthFinish(message)) => message,
                _ => AuthFinishView::empty(),
            };
            match message::merged_with(start, data) {
                Some(message) => Some(PayloadView::AuthFinish(message)),
                None => None,
            }
        } else if tag == 8 {
            let start = match before {
                Some(PayloadView::AuthResult(message)) => message,
                _ => AuthResultView::empty(),
            };
            match message::merged_with(start, data) {
                Some(message) => Some(PayloadView::AuthResult(message)),
                None => None,
            }
        } else if tag == 9 {
            let start = match before {
                Some(PayloadView::SessionAttach(message)) => message,
                _ => SessionAttachView::empty(),
            };
            match message::merged_with(start, data) {
                Some(message) => Some(PayloadView::SessionAttach(message)),
                None => None,
            }
        } else if tag == 10 {
            let start = match before {
                Some(PayloadView::ListEntriesRequest(message)) => message,
                _ => ListEntriesRequestView::empty(),
            };
            match message::merged_with(start, data) {
                Some(message) => Some(PayloadView::ListEntriesRequest(message)),
                None => None,
            }
        } else if tag == 11 {
            let start = match before {
                Some(PayloadView::ListEntriesResponse(message)) => message,
                _ => ListEntriesResponseView::empty(),
            };
            match message::merged_with(start, data) {
                Some(message) => Some(PayloadView::ListEntriesResponse(message)),
                None => None,
            }
        } else if tag == 12 {
            let start = match before {
                Some(PayloadView::CreateSnapshotRequest(message)) => message,
                _ => CreateSnapshotRequestView::empty(),
            };
            match message::merged_with(start, data) {
                Some(message) => Some(PayloadView::CreateSnapshotRequest(message)),
                None => None,
            }
        } else if tag == 13 {
            let start = match before {
                Some(PayloadView::SnapshotProgress(message)) => message,
                _ => SnapshotProgressView::empty(),
            };
            match message::merged_with(start, data) {
                Some(message) => Some(PayloadView::SnapshotProgress(message)),
                None => None,
            }
        } else if tag == 14 {
            let start = match before {
                Some(PayloadView::SnapshotManifest(message)) => message,
                _ => SnapshotManifestView::empty(),
            };
            match message::merged_with(start, data) {
                Some(message) => Some(PayloadView::SnapshotManifest(message)),
                None => None,
            }
        } else if tag == 15 {
            let start = match before {
                Some(PayloadView::SnapshotManifestPage(message)) => message,
                _ => SnapshotManifestPageView::empty(),
            };
            match message::merged_with(start, data) {
                Some(message) => Some(PayloadView::SnapshotManifestPage(message)),
                None => None,
            }
        } else if tag == 16 {
            let start = match before {
                Some(PayloadView::SmallFileBatchRequest(message)) => message,
                _ => SmallFileBatchRequestView::empty(),
            };
            match message::merged_with(start, data) {
                Some(message) => Some(PayloadView::SmallFileBatchRequest(message)),
                None => None,
            }
        } else if tag == 17 {
            let start = match before {
                Some(PayloadView::SmallFileComplete(message)) => message,
                _ => SmallFileCompleteView::empty(),
            };
            match message::merged_with(start, data) {
                Some(message) => Some(PayloadView::SmallFileComplete(message)),
                None => None,
            }
        } else if tag == 18 {
            let start = match before {
                Some(PayloadView::SmallFileBatchComplete(message)) => message,
                _ => SmallFileBatchCompleteView::empty(),
            };
            match message::merged_with(start, data) {
                Some(message) => Some(PayloadView::SmallFileBatchComplete(message)),
                None => None,
            }
        } else if tag == 19 {
            let start = match before {
                Some(PayloadView::ChunkRequest(message)) => message,
                _ => ChunkRequestView::empty(),
            };
            match message::merged_with(start, data) {
                Some(message) => Some(PayloadView::ChunkRequest(message)),
                None => None,
            }
        } else if tag == 20 {
            let start = match before {
                Some(PayloadView::ChunkComplete(message)) => message,
                _ => ChunkCompleteView::empty(),
            };
            match message::merged_with(start, data) {
                Some(message) => Some(PayloadView::ChunkComplete(message)),
                None => None,
            }
        } else if tag == 21 {
            let start = match before {
                Some(PayloadView::Ping(message)) => message,
                _ => PingView::empty(),
            };
            match message::merged_with(start, data) {
                Some(message) => Some(PayloadView::Ping(message)),
                None => None,
            }
        } else if tag == 22 {
            let start = match before {
                Some(PayloadView::Pong(message)) => message,
                _ => PongView::empty(),
            };
            match message::merged_with(start, data) {
                Some(message) => Some(PayloadView::Pong(message)),
                None => None,
            }
        } else if tag == 23 {
            let start = match before {
                Some(PayloadView::Cancel(message)) => message,
                _ => CancelView::empty(),
            };
            match message::merged_with(start, data) {
                Some(message) => Some(PayloadView::Cancel(message)),
                None => None,
            }
        } else if tag == 24 {
            let start = match before {
                Some(PayloadView::Error(message)) => message,
                _ => ErrorView::empty(),
            };
            match message::merged_with(start, data) {
                Some(message) => Some(PayloadView::Error(message)),
                None => None,
            }
        } else {
            None
        }
    }

    proof fn lemma_roundtrip(self)
        requires
            self.encoded().len() <= u64::MAX,
        ensures
            PayloadView::merge(None, self.tag(), self.encoded()) == Some(self),
            1 <= self.tag() <= LAST_TAG,
    {
        match self {
            PayloadView::Hello(message) => {
                message::lemma_roundtrip(message);
            },
            PayloadView::VersionReject(message) => {
                message::lemma_roundtrip(message);
            },
            PayloadView::ListSharesRequest(message) => {
                message::lemma_roundtrip(message);
            },
            PayloadView::ListSharesResponse(message) => {
                message::lemma_roundtrip(message);
            },
            PayloadView::AuthStart(message) => {
                message::lemma_roundtrip(message);
            },
            PayloadView::AuthChallenge(message) => {
                message::lemma_roundtrip(message);
            },
            PayloadView::AuthFinish(message) => {
                message::lemma_roundtrip(message);
            },
            PayloadView::AuthResult(message) => {
                message::lemma_roundtrip(message);
            },
            PayloadView::SessionAttach(message) => {
                message::lemma_roundtrip(message);
            },
            PayloadView::ListEntriesRequest(message) => {
                message::lemma_roundtrip(message);
            },
            PayloadView::ListEntriesResponse(message) => {
                message::lemma_roundtrip(message);
            },
            PayloadView::CreateSnapshotRequest(message) => {
                message::lemma_roundtrip(message);
            },
            PayloadView::SnapshotProgress(message) => {
                message::lemma_roundtrip(message);
            },
            PayloadView::SnapshotManifest(message) => {
                message::lemma_roundtrip(message);
            },
            PayloadView::SnapshotManifestPage(message) => {
                message::lemma_roundtrip(message);
            },
            PayloadView::SmallFileBatchRequest(message) => {
                message::lemma_roundtrip(message);
            },
            PayloadView::SmallFileComplete(message) => {
                message::lemma_roundtrip(message);
            },
            PayloadView::SmallFileBatchComplete(message) => {
                message::lemma_roundtrip(message);
            },
            PayloadView::ChunkRequest(message) => {
                message::lemma_roundtrip(message);
            },
            PayloadView::ChunkComplete(message) => {
                message::lemma_roundtrip(message);
            },
            PayloadView::Ping(message) => {
                message::lemma_roundtrip(message);
            },
            PayloadView::Pong(message) => {
                message::lemma_roundtrip(message);
            },
            PayloadView::Cancel(message) => {
                message::lemma_roundtrip(message);
            },
            PayloadView::Error(message) => {
                message::lemma_roundtrip(message);
            },
        }
    }
}

/// The highest number of a message.
pub const LAST_TAG: u32 = 24;

impl EnvelopeView {
    /// The envelope once one more field was read.
    pub open spec fn step(self, field: Field) -> Option<EnvelopeView> {
        if 1 <= field.tag <= LAST_TAG {
            match field.value {
                FieldValue::Bytes(data) => match PayloadView::merge(self.payload, field.tag, data) {
                    Some(payload) => Some((EnvelopeView { payload: Some(payload) })),
                    None => None,
                },
                _ => None,
            }
        } else {
            Some(self)
        }
    }
}

impl Model for EnvelopeView {
    open spec fn depth() -> nat {
        0
    }

    open spec fn empty() -> EnvelopeView {
        EnvelopeView { payload: None }
    }

    open spec fn fields(self) -> Seq<Field> {
        match self.payload {
            Some(payload) => fields::message_field(payload.tag(), payload.encoded()),
            None => Seq::empty(),
        }
    }

    open spec fn stepper() -> spec_fn(EnvelopeView, Field) -> Option<EnvelopeView> {
        |envelope: EnvelopeView, field: Field| envelope.step(field)
    }

    proof fn lemma_plain(self) {
    }

    proof fn lemma_merged(self) {
        let list = self.fields();
        let step = EnvelopeView::stepper();
        if let Some(payload) = self.payload {
            assert(list[0].value == FieldValue::Bytes(payload.encoded()));
            fields::lemma_part_len(list, 0);
            payload.lemma_roundtrip();
        }
        fields::lemma_merged_small(step, EnvelopeView::empty(), list);
    }
}

impl Payload {
    /// The number of the field that the message travels in.
    pub fn tag(&self) -> (tag: u32)
        ensures
            tag == self@.tag(),
    {
        match self {
            Payload::Hello(_) => 1,
            Payload::VersionReject(_) => 2,
            Payload::ListSharesRequest(_) => 3,
            Payload::ListSharesResponse(_) => 4,
            Payload::AuthStart(_) => 5,
            Payload::AuthChallenge(_) => 6,
            Payload::AuthFinish(_) => 7,
            Payload::AuthResult(_) => 8,
            Payload::SessionAttach(_) => 9,
            Payload::ListEntriesRequest(_) => 10,
            Payload::ListEntriesResponse(_) => 11,
            Payload::CreateSnapshotRequest(_) => 12,
            Payload::SnapshotProgress(_) => 13,
            Payload::SnapshotManifest(_) => 14,
            Payload::SnapshotManifestPage(_) => 15,
            Payload::SmallFileBatchRequest(_) => 16,
            Payload::SmallFileComplete(_) => 17,
            Payload::SmallFileBatchComplete(_) => 18,
            Payload::ChunkRequest(_) => 19,
            Payload::ChunkComplete(_) => 20,
            Payload::Ping(_) => 21,
            Payload::Pong(_) => 22,
            Payload::Cancel(_) => 23,
            Payload::Error(_) => 24,
        }
    }

    /// The bytes of the message.
    pub fn encode(&self) -> (data: Vec<u8>)
        ensures
            data@ == self@.encoded(),
    {
        match self {
            Payload::Hello(message) => message::encode(message),
            Payload::VersionReject(message) => message::encode(message),
            Payload::ListSharesRequest(message) => message::encode(message),
            Payload::ListSharesResponse(message) => message::encode(message),
            Payload::AuthStart(message) => message::encode(message),
            Payload::AuthChallenge(message) => message::encode(message),
            Payload::AuthFinish(message) => message::encode(message),
            Payload::AuthResult(message) => message::encode(message),
            Payload::SessionAttach(message) => message::encode(message),
            Payload::ListEntriesRequest(message) => message::encode(message),
            Payload::ListEntriesResponse(message) => message::encode(message),
            Payload::CreateSnapshotRequest(message) => message::encode(message),
            Payload::SnapshotProgress(message) => message::encode(message),
            Payload::SnapshotManifest(message) => message::encode(message),
            Payload::SnapshotManifestPage(message) => message::encode(message),
            Payload::SmallFileBatchRequest(message) => message::encode(message),
            Payload::SmallFileComplete(message) => message::encode(message),
            Payload::SmallFileBatchComplete(message) => message::encode(message),
            Payload::ChunkRequest(message) => message::encode(message),
            Payload::ChunkComplete(message) => message::encode(message),
            Payload::Ping(message) => message::encode(message),
            Payload::Pong(message) => message::encode(message),
            Payload::Cancel(message) => message::encode(message),
            Payload::Error(message) => message::encode(message),
        }
    }

    /// Reads `data` as the message with the number `tag`, on top of what was
    /// there before.
    fn merge(before: Option<Payload>, tag: u32, data: &[u8]) -> (payload: Option<Payload>)
        ensures
            match PayloadView::merge(
                match before {
                    Some(b) => Some(b@),
                    None => None,
                },
                tag,
                data@,
            ) {
                Some(model) => payload matches Some(p) && p@ == model,
                None => payload is None,
            },
    {
        match tag {
            1 => {
                let mut message = match before {
                    Some(Payload::Hello(message)) => message,
                    _ => <Hello as Message>::empty(),
                };
                if message::merge(&mut message, data) {
                    Some(Payload::Hello(message))
                } else {
                    None
                }
            },
            2 => {
                let mut message = match before {
                    Some(Payload::VersionReject(message)) => message,
                    _ => <VersionReject as Message>::empty(),
                };
                if message::merge(&mut message, data) {
                    Some(Payload::VersionReject(message))
                } else {
                    None
                }
            },
            3 => {
                let mut message = match before {
                    Some(Payload::ListSharesRequest(message)) => message,
                    _ => <ListSharesRequest as Message>::empty(),
                };
                if message::merge(&mut message, data) {
                    Some(Payload::ListSharesRequest(message))
                } else {
                    None
                }
            },
            4 => {
                let mut message = match before {
                    Some(Payload::ListSharesResponse(message)) => message,
                    _ => <ListSharesResponse as Message>::empty(),
                };
                if message::merge(&mut message, data) {
                    Some(Payload::ListSharesResponse(message))
                } else {
                    None
                }
            },
            5 => {
                let mut message = match before {
                    Some(Payload::AuthStart(message)) => message,
                    _ => <AuthStart as Message>::empty(),
                };
                if message::merge(&mut message, data) {
                    Some(Payload::AuthStart(message))
                } else {
                    None
                }
            },
            6 => {
                let mut message = match before {
                    Some(Payload::AuthChallenge(message)) => message,
                    _ => <AuthChallenge as Message>::empty(),
                };
                if message::merge(&mut message, data) {
                    Some(Payload::AuthChallenge(message))
                } else {
                    None
                }
            },
            7 => {
                let mut message = match before {
                    Some(Payload::AuthFinish(message)) => message,
                    _ => <AuthFinish as Message>::empty(),
                };
                if message::merge(&mut message, data) {
                    Some(Payload::AuthFinish(message))
                } else {
                    None
                }
            },
            8 => {
                let mut message = match before {
                    Some(Payload::AuthResult(message)) => message,
                    _ => <AuthResult as Message>::empty(),
                };
                if message::merge(&mut message, data) {
                    Some(Payload::AuthResult(message))
                } else {
                    None
                }
            },
            9 => {
                let mut message = match before {
                    Some(Payload::SessionAttach(message)) => message,
                    _ => <SessionAttach as Message>::empty(),
                };
                if message::merge(&mut message, data) {
                    Some(Payload::SessionAttach(message))
                } else {
                    None
                }
            },
            10 => {
                let mut message = match before {
                    Some(Payload::ListEntriesRequest(message)) => message,
                    _ => <ListEntriesRequest as Message>::empty(),
                };
                if message::merge(&mut message, data) {
                    Some(Payload::ListEntriesRequest(message))
                } else {
                    None
                }
            },
            11 => {
                let mut message = match before {
                    Some(Payload::ListEntriesResponse(message)) => message,
                    _ => <ListEntriesResponse as Message>::empty(),
                };
                if message::merge(&mut message, data) {
                    Some(Payload::ListEntriesResponse(message))
                } else {
                    None
                }
            },
            12 => {
                let mut message = match before {
                    Some(Payload::CreateSnapshotRequest(message)) => message,
                    _ => <CreateSnapshotRequest as Message>::empty(),
                };
                if message::merge(&mut message, data) {
                    Some(Payload::CreateSnapshotRequest(message))
                } else {
                    None
                }
            },
            13 => {
                let mut message = match before {
                    Some(Payload::SnapshotProgress(message)) => message,
                    _ => <SnapshotProgress as Message>::empty(),
                };
                if message::merge(&mut message, data) {
                    Some(Payload::SnapshotProgress(message))
                } else {
                    None
                }
            },
            14 => {
                let mut message = match before {
                    Some(Payload::SnapshotManifest(message)) => message,
                    _ => <SnapshotManifest as Message>::empty(),
                };
                if message::merge(&mut message, data) {
                    Some(Payload::SnapshotManifest(message))
                } else {
                    None
                }
            },
            15 => {
                let mut message = match before {
                    Some(Payload::SnapshotManifestPage(message)) => message,
                    _ => <SnapshotManifestPage as Message>::empty(),
                };
                if message::merge(&mut message, data) {
                    Some(Payload::SnapshotManifestPage(message))
                } else {
                    None
                }
            },
            16 => {
                let mut message = match before {
                    Some(Payload::SmallFileBatchRequest(message)) => message,
                    _ => <SmallFileBatchRequest as Message>::empty(),
                };
                if message::merge(&mut message, data) {
                    Some(Payload::SmallFileBatchRequest(message))
                } else {
                    None
                }
            },
            17 => {
                let mut message = match before {
                    Some(Payload::SmallFileComplete(message)) => message,
                    _ => <SmallFileComplete as Message>::empty(),
                };
                if message::merge(&mut message, data) {
                    Some(Payload::SmallFileComplete(message))
                } else {
                    None
                }
            },
            18 => {
                let mut message = match before {
                    Some(Payload::SmallFileBatchComplete(message)) => message,
                    _ => <SmallFileBatchComplete as Message>::empty(),
                };
                if message::merge(&mut message, data) {
                    Some(Payload::SmallFileBatchComplete(message))
                } else {
                    None
                }
            },
            19 => {
                let mut message = match before {
                    Some(Payload::ChunkRequest(message)) => message,
                    _ => <ChunkRequest as Message>::empty(),
                };
                if message::merge(&mut message, data) {
                    Some(Payload::ChunkRequest(message))
                } else {
                    None
                }
            },
            20 => {
                let mut message = match before {
                    Some(Payload::ChunkComplete(message)) => message,
                    _ => <ChunkComplete as Message>::empty(),
                };
                if message::merge(&mut message, data) {
                    Some(Payload::ChunkComplete(message))
                } else {
                    None
                }
            },
            21 => {
                let mut message = match before {
                    Some(Payload::Ping(message)) => message,
                    _ => <Ping as Message>::empty(),
                };
                if message::merge(&mut message, data) {
                    Some(Payload::Ping(message))
                } else {
                    None
                }
            },
            22 => {
                let mut message = match before {
                    Some(Payload::Pong(message)) => message,
                    _ => <Pong as Message>::empty(),
                };
                if message::merge(&mut message, data) {
                    Some(Payload::Pong(message))
                } else {
                    None
                }
            },
            23 => {
                let mut message = match before {
                    Some(Payload::Cancel(message)) => message,
                    _ => <Cancel as Message>::empty(),
                };
                if message::merge(&mut message, data) {
                    Some(Payload::Cancel(message))
                } else {
                    None
                }
            },
            24 => {
                let mut message = match before {
                    Some(Payload::Error(message)) => message,
                    _ => <Error as Message>::empty(),
                };
                if message::merge(&mut message, data) {
                    Some(Payload::Error(message))
                } else {
                    None
                }
            },
            _ => None,
        }
    }
}

impl Message for Envelope {
    fn depth() -> (depth: usize) {
        0
    }

    fn empty() -> (envelope: Envelope) {
        Envelope { payload: None }
    }

    fn encode_raw(&self, buf: &mut Vec<u8>) {
        if let Some(payload) = &self.payload {
            let body = payload.encode();
            let tag: u32 = payload.tag();
            fields::put_message(buf, tag, body.as_slice());
        }
        assert(buf@ =~= old(buf)@ + message::encoded(self@));
    }

    fn merge_field(&mut self, field: &RawField) -> (ok: bool) {
        if field.tag < 1 || field.tag > LAST_TAG {
            return true;
        }
        match &field.value {
            RawValue::Bytes(data) => {
                let before = self.payload.take();
                match Payload::merge(before, field.tag, data.as_slice()) {
                    Some(payload) => {
                        self.payload = Some(payload);
                        true
                    },
                    None => false,
                }
            },
            _ => false,
        }
    }
}

} // verus!
