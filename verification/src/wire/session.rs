//! The messages that open connections and sessions.

use vstd::prelude::*;

use crate::fields;
use crate::fields::{Field, RawField};
use crate::message;
use crate::message::{Message, Model};

verus! {

/// The first message on a connection: who is there, and what they speak.
#[derive(Debug)]
pub struct Hello {
    /// The identity of the device.
    pub device_id: String,
    /// The name shown to people.
    pub device_name: String,
    /// The lowest major version that is spoken.
    pub min_major: u32,
    /// The highest major version that is spoken.
    pub max_major: u32,
    /// The highest minor version that is spoken.
    pub max_minor: u32,
    /// A bit for each feature that is known.
    pub features: u64,
    /// The largest frame body that is read.
    pub max_frame_size: u32,
    /// How many streams may be open at once.
    pub max_concurrent_streams: u32,
}

/// The model of a [`Hello`].
#[verifier::ext_equal]
pub struct HelloView {
    pub device_id: Seq<char>,
    pub device_name: Seq<char>,
    pub min_major: u32,
    pub max_major: u32,
    pub max_minor: u32,
    pub features: u64,
    pub max_frame_size: u32,
    pub max_concurrent_streams: u32,
}

impl View for Hello {
    type V = HelloView;

    open spec fn view(&self) -> HelloView {
        HelloView {
            device_id: self.device_id@,
            device_name: self.device_name@,
            min_major: self.min_major,
            max_major: self.max_major,
            max_minor: self.max_minor,
            features: self.features,
            max_frame_size: self.max_frame_size,
            max_concurrent_streams: self.max_concurrent_streams,
        }
    }
}

impl HelloView {
    /// The message once one more field was read.
    pub open spec fn step(self, field: Field) -> Option<HelloView> {
        if field.tag == 1 {
            match fields::text_value(field.value) {
                Some(x) => Some((HelloView { device_id: x, ..self })),
                None => None,
            }
        } else if field.tag == 2 {
            match fields::text_value(field.value) {
                Some(x) => Some((HelloView { device_name: x, ..self })),
                None => None,
            }
        } else if field.tag == 3 {
            match fields::number_value(field.value) {
                Some(x) => Some((HelloView { min_major: x as u32, ..self })),
                None => None,
            }
        } else if field.tag == 4 {
            match fields::number_value(field.value) {
                Some(x) => Some((HelloView { max_major: x as u32, ..self })),
                None => None,
            }
        } else if field.tag == 5 {
            match fields::number_value(field.value) {
                Some(x) => Some((HelloView { max_minor: x as u32, ..self })),
                None => None,
            }
        } else if field.tag == 6 {
            match fields::number_value(field.value) {
                Some(x) => Some((HelloView { features: x, ..self })),
                None => None,
            }
        } else if field.tag == 7 {
            match fields::number_value(field.value) {
                Some(x) => Some((HelloView { max_frame_size: x as u32, ..self })),
                None => None,
            }
        } else if field.tag == 8 {
            match fields::number_value(field.value) {
                Some(x) => Some((HelloView { max_concurrent_streams: x as u32, ..self })),
                None => None,
            }
        } else {
            Some(self)
        }
    }
}

impl Model for HelloView {
    open spec fn depth() -> nat {
        1
    }

    open spec fn empty() -> HelloView {
        HelloView {
            device_id: Seq::empty(),
            device_name: Seq::empty(),
            min_major: 0,
            max_major: 0,
            max_minor: 0,
            features: 0,
            max_frame_size: 0,
            max_concurrent_streams: 0,
        }
    }

    open spec fn fields(self) -> Seq<Field> {
        fields::text_field(1, self.device_id)
            + fields::text_field(2, self.device_name)
            + fields::number_field(3, self.min_major as u64)
            + fields::number_field(4, self.max_major as u64)
            + fields::number_field(5, self.max_minor as u64)
            + fields::number_field(6, self.features)
            + fields::number_field(7, self.max_frame_size as u64)
            + fields::number_field(8, self.max_concurrent_streams as u64)
    }

    open spec fn stepper() -> spec_fn(HelloView, Field) -> Option<HelloView> {
        |message: HelloView, field: Field| message.step(field)
    }

    proof fn lemma_plain(self) {
        let g1 = fields::text_field(1, self.device_id);
        let p1 = g1;
        let g2 = fields::text_field(2, self.device_name);
        let p2 = p1 + g2;
        fields::lemma_plain_concat(p1, g2);
        let g3 = fields::number_field(3, self.min_major as u64);
        let p3 = p2 + g3;
        fields::lemma_plain_concat(p2, g3);
        let g4 = fields::number_field(4, self.max_major as u64);
        let p4 = p3 + g4;
        fields::lemma_plain_concat(p3, g4);
        let g5 = fields::number_field(5, self.max_minor as u64);
        let p5 = p4 + g5;
        fields::lemma_plain_concat(p4, g5);
        let g6 = fields::number_field(6, self.features);
        let p6 = p5 + g6;
        fields::lemma_plain_concat(p5, g6);
        let g7 = fields::number_field(7, self.max_frame_size as u64);
        let p7 = p6 + g7;
        fields::lemma_plain_concat(p6, g7);
        let g8 = fields::number_field(8, self.max_concurrent_streams as u64);
        let p8 = p7 + g8;
        fields::lemma_plain_concat(p7, g8);
    }

    proof fn lemma_merged(self) {
        let step = HelloView::stepper();
        let s0 = HelloView::empty();
        let g1 = fields::text_field(1, self.device_id);
        let s1 = HelloView { device_id: self.device_id, ..s0 };
        fields::lemma_text_field(1, self.device_id);
        fields::lemma_merged_small(step, s0, g1);
        assert(fields::merged(step, s0, g1) == Some(s1));
        let p1 = g1;
        let g2 = fields::text_field(2, self.device_name);
        let s2 = HelloView { device_name: self.device_name, ..s1 };
        fields::lemma_text_field(2, self.device_name);
        fields::lemma_merged_small(step, s1, g2);
        assert(fields::merged(step, s1, g2) == Some(s2));
        let p2 = p1 + g2;
        fields::lemma_merged_concat(step, s0, p1, g2);
        let g3 = fields::number_field(3, self.min_major as u64);
        let s3 = HelloView { min_major: self.min_major, ..s2 };
        fields::lemma_merged_small(step, s2, g3);
        assert(fields::merged(step, s2, g3) == Some(s3));
        let p3 = p2 + g3;
        fields::lemma_merged_concat(step, s0, p2, g3);
        let g4 = fields::number_field(4, self.max_major as u64);
        let s4 = HelloView { max_major: self.max_major, ..s3 };
        fields::lemma_merged_small(step, s3, g4);
        assert(fields::merged(step, s3, g4) == Some(s4));
        let p4 = p3 + g4;
        fields::lemma_merged_concat(step, s0, p3, g4);
        let g5 = fields::number_field(5, self.max_minor as u64);
        let s5 = HelloView { max_minor: self.max_minor, ..s4 };
        fields::lemma_merged_small(step, s4, g5);
        assert(fields::merged(step, s4, g5) == Some(s5));
        let p5 = p4 + g5;
        fields::lemma_merged_concat(step, s0, p4, g5);
        let g6 = fields::number_field(6, self.features);
        let s6 = HelloView { features: self.features, ..s5 };
        fields::lemma_merged_small(step, s5, g6);
        assert(fields::merged(step, s5, g6) == Some(s6));
        let p6 = p5 + g6;
        fields::lemma_merged_concat(step, s0, p5, g6);
        let g7 = fields::number_field(7, self.max_frame_size as u64);
        let s7 = HelloView { max_frame_size: self.max_frame_size, ..s6 };
        fields::lemma_merged_small(step, s6, g7);
        assert(fields::merged(step, s6, g7) == Some(s7));
        let p7 = p6 + g7;
        fields::lemma_merged_concat(step, s0, p6, g7);
        let g8 = fields::number_field(8, self.max_concurrent_streams as u64);
        let s8 = HelloView { max_concurrent_streams: self.max_concurrent_streams, ..s7 };
        fields::lemma_merged_small(step, s7, g8);
        assert(fields::merged(step, s7, g8) == Some(s8));
        let p8 = p7 + g8;
        fields::lemma_merged_concat(step, s0, p7, g8);
        assert(s8 =~= self);
    }
}

impl Message for Hello {
    fn depth() -> (depth: usize) {
        1
    }

    fn empty() -> (message: Hello) {
        let message = Hello {
            device_id: String::new(),
            device_name: String::new(),
            min_major: 0,
            max_major: 0,
            max_minor: 0,
            features: 0,
            max_frame_size: 0,
            max_concurrent_streams: 0,
        };
        assert(message@ =~= HelloView::empty());
        message
    }

    fn encode_raw(&self, buf: &mut Vec<u8>) {
        let ghost start = buf@;
        fields::put_text(buf, 1, self.device_id.as_str());
        let ghost g1 = fields::text_field(1, self@.device_id);
        let ghost p1 = g1;
        fields::put_text(buf, 2, self.device_name.as_str());
        let ghost g2 = fields::text_field(2, self@.device_name);
        let ghost p2 = p1 + g2;
        proof {
            fields::lemma_append(start, p1, g2);
        }
        fields::put_number(buf, 3, self.min_major as u64);
        let ghost g3 = fields::number_field(3, self@.min_major as u64);
        let ghost p3 = p2 + g3;
        proof {
            fields::lemma_append(start, p2, g3);
        }
        fields::put_number(buf, 4, self.max_major as u64);
        let ghost g4 = fields::number_field(4, self@.max_major as u64);
        let ghost p4 = p3 + g4;
        proof {
            fields::lemma_append(start, p3, g4);
        }
        fields::put_number(buf, 5, self.max_minor as u64);
        let ghost g5 = fields::number_field(5, self@.max_minor as u64);
        let ghost p5 = p4 + g5;
        proof {
            fields::lemma_append(start, p4, g5);
        }
        fields::put_number(buf, 6, self.features);
        let ghost g6 = fields::number_field(6, self@.features);
        let ghost p6 = p5 + g6;
        proof {
            fields::lemma_append(start, p5, g6);
        }
        fields::put_number(buf, 7, self.max_frame_size as u64);
        let ghost g7 = fields::number_field(7, self@.max_frame_size as u64);
        let ghost p7 = p6 + g7;
        proof {
            fields::lemma_append(start, p6, g7);
        }
        fields::put_number(buf, 8, self.max_concurrent_streams as u64);
        let ghost g8 = fields::number_field(8, self@.max_concurrent_streams as u64);
        let ghost p8 = p7 + g8;
        proof {
            fields::lemma_append(start, p7, g8);
        }
    }

    fn merge_field(&mut self, field: &RawField) -> (ok: bool) {
        match field.tag {
            1 => match fields::read_text(&field.value) {
                Some(x) => {
                    self.device_id = x;
                },
                None => {
                    return false;
                },
            },
            2 => match fields::read_text(&field.value) {
                Some(x) => {
                    self.device_name = x;
                },
                None => {
                    return false;
                },
            },
            3 => match fields::read_number(&field.value) {
                Some(x) => {
                    self.min_major = #[verifier::truncate] (x as u32);
                },
                None => {
                    return false;
                },
            },
            4 => match fields::read_number(&field.value) {
                Some(x) => {
                    self.max_major = #[verifier::truncate] (x as u32);
                },
                None => {
                    return false;
                },
            },
            5 => match fields::read_number(&field.value) {
                Some(x) => {
                    self.max_minor = #[verifier::truncate] (x as u32);
                },
                None => {
                    return false;
                },
            },
            6 => match fields::read_number(&field.value) {
                Some(x) => {
                    self.features = x;
                },
                None => {
                    return false;
                },
            },
            7 => match fields::read_number(&field.value) {
                Some(x) => {
                    self.max_frame_size = #[verifier::truncate] (x as u32);
                },
                None => {
                    return false;
                },
            },
            8 => match fields::read_number(&field.value) {
                Some(x) => {
                    self.max_concurrent_streams = #[verifier::truncate] (x as u32);
                },
                None => {
                    return false;
                },
            },
            _ => {},
        }
        true
    }
}

/// The answer to a `Hello` of another major version.
#[derive(Debug)]
pub struct VersionReject {
    pub min_major: u32,
    pub max_major: u32,
    pub reason: String,
}

/// The model of a [`VersionReject`].
#[verifier::ext_equal]
pub struct VersionRejectView {
    pub min_major: u32,
    pub max_major: u32,
    pub reason: Seq<char>,
}

impl View for VersionReject {
    type V = VersionRejectView;

    open spec fn view(&self) -> VersionRejectView {
        VersionRejectView {
            min_major: self.min_major,
            max_major: self.max_major,
            reason: self.reason@,
        }
    }
}

impl VersionRejectView {
    /// The message once one more field was read.
    pub open spec fn step(self, field: Field) -> Option<VersionRejectView> {
        if field.tag == 1 {
            match fields::number_value(field.value) {
                Some(x) => Some((VersionRejectView { min_major: x as u32, ..self })),
                None => None,
            }
        } else if field.tag == 2 {
            match fields::number_value(field.value) {
                Some(x) => Some((VersionRejectView { max_major: x as u32, ..self })),
                None => None,
            }
        } else if field.tag == 3 {
            match fields::text_value(field.value) {
                Some(x) => Some((VersionRejectView { reason: x, ..self })),
                None => None,
            }
        } else {
            Some(self)
        }
    }
}

impl Model for VersionRejectView {
    open spec fn depth() -> nat {
        1
    }

    open spec fn empty() -> VersionRejectView {
        VersionRejectView {
            min_major: 0,
            max_major: 0,
            reason: Seq::empty(),
        }
    }

    open spec fn fields(self) -> Seq<Field> {
        fields::number_field(1, self.min_major as u64)
            + fields::number_field(2, self.max_major as u64)
            + fields::text_field(3, self.reason)
    }

    open spec fn stepper() -> spec_fn(VersionRejectView, Field) -> Option<VersionRejectView> {
        |message: VersionRejectView, field: Field| message.step(field)
    }

    proof fn lemma_plain(self) {
        let g1 = fields::number_field(1, self.min_major as u64);
        let p1 = g1;
        let g2 = fields::number_field(2, self.max_major as u64);
        let p2 = p1 + g2;
        fields::lemma_plain_concat(p1, g2);
        let g3 = fields::text_field(3, self.reason);
        let p3 = p2 + g3;
        fields::lemma_plain_concat(p2, g3);
    }

    proof fn lemma_merged(self) {
        let step = VersionRejectView::stepper();
        let s0 = VersionRejectView::empty();
        let g1 = fields::number_field(1, self.min_major as u64);
        let s1 = VersionRejectView { min_major: self.min_major, ..s0 };
        fields::lemma_merged_small(step, s0, g1);
        assert(fields::merged(step, s0, g1) == Some(s1));
        let p1 = g1;
        let g2 = fields::number_field(2, self.max_major as u64);
        let s2 = VersionRejectView { max_major: self.max_major, ..s1 };
        fields::lemma_merged_small(step, s1, g2);
        assert(fields::merged(step, s1, g2) == Some(s2));
        let p2 = p1 + g2;
        fields::lemma_merged_concat(step, s0, p1, g2);
        let g3 = fields::text_field(3, self.reason);
        let s3 = VersionRejectView { reason: self.reason, ..s2 };
        fields::lemma_text_field(3, self.reason);
        fields::lemma_merged_small(step, s2, g3);
        assert(fields::merged(step, s2, g3) == Some(s3));
        let p3 = p2 + g3;
        fields::lemma_merged_concat(step, s0, p2, g3);
        assert(s3 =~= self);
    }
}

impl Message for VersionReject {
    fn depth() -> (depth: usize) {
        1
    }

    fn empty() -> (message: VersionReject) {
        let message = VersionReject {
            min_major: 0,
            max_major: 0,
            reason: String::new(),
        };
        assert(message@ =~= VersionRejectView::empty());
        message
    }

    fn encode_raw(&self, buf: &mut Vec<u8>) {
        let ghost start = buf@;
        fields::put_number(buf, 1, self.min_major as u64);
        let ghost g1 = fields::number_field(1, self@.min_major as u64);
        let ghost p1 = g1;
        fields::put_number(buf, 2, self.max_major as u64);
        let ghost g2 = fields::number_field(2, self@.max_major as u64);
        let ghost p2 = p1 + g2;
        proof {
            fields::lemma_append(start, p1, g2);
        }
        fields::put_text(buf, 3, self.reason.as_str());
        let ghost g3 = fields::text_field(3, self@.reason);
        let ghost p3 = p2 + g3;
        proof {
            fields::lemma_append(start, p2, g3);
        }
    }

    fn merge_field(&mut self, field: &RawField) -> (ok: bool) {
        match field.tag {
            1 => match fields::read_number(&field.value) {
                Some(x) => {
                    self.min_major = #[verifier::truncate] (x as u32);
                },
                None => {
                    return false;
                },
            },
            2 => match fields::read_number(&field.value) {
                Some(x) => {
                    self.max_major = #[verifier::truncate] (x as u32);
                },
                None => {
                    return false;
                },
            },
            3 => match fields::read_text(&field.value) {
                Some(x) => {
                    self.reason = x;
                },
                None => {
                    return false;
                },
            },
            _ => {},
        }
        true
    }
}

/// Opens a login to a share.
#[derive(Debug)]
pub struct AuthStart {
    pub share_id: String,
    pub credential_request: Vec<u8>,
}

/// The model of a [`AuthStart`].
#[verifier::ext_equal]
pub struct AuthStartView {
    pub share_id: Seq<char>,
    pub credential_request: Seq<u8>,
}

impl View for AuthStart {
    type V = AuthStartView;

    open spec fn view(&self) -> AuthStartView {
        AuthStartView {
            share_id: self.share_id@,
            credential_request: self.credential_request@,
        }
    }
}

impl AuthStartView {
    /// The message once one more field was read.
    pub open spec fn step(self, field: Field) -> Option<AuthStartView> {
        if field.tag == 1 {
            match fields::text_value(field.value) {
                Some(x) => Some((AuthStartView { share_id: x, ..self })),
                None => None,
            }
        } else if field.tag == 2 {
            match fields::bytes_value(field.value) {
                Some(x) => Some((AuthStartView { credential_request: x, ..self })),
                None => None,
            }
        } else {
            Some(self)
        }
    }
}

impl Model for AuthStartView {
    open spec fn depth() -> nat {
        1
    }

    open spec fn empty() -> AuthStartView {
        AuthStartView {
            share_id: Seq::empty(),
            credential_request: Seq::empty(),
        }
    }

    open spec fn fields(self) -> Seq<Field> {
        fields::text_field(1, self.share_id)
            + fields::bytes_field(2, self.credential_request)
    }

    open spec fn stepper() -> spec_fn(AuthStartView, Field) -> Option<AuthStartView> {
        |message: AuthStartView, field: Field| message.step(field)
    }

    proof fn lemma_plain(self) {
        let g1 = fields::text_field(1, self.share_id);
        let p1 = g1;
        let g2 = fields::bytes_field(2, self.credential_request);
        let p2 = p1 + g2;
        fields::lemma_plain_concat(p1, g2);
    }

    proof fn lemma_merged(self) {
        let step = AuthStartView::stepper();
        let s0 = AuthStartView::empty();
        let g1 = fields::text_field(1, self.share_id);
        let s1 = AuthStartView { share_id: self.share_id, ..s0 };
        fields::lemma_text_field(1, self.share_id);
        fields::lemma_merged_small(step, s0, g1);
        assert(fields::merged(step, s0, g1) == Some(s1));
        let p1 = g1;
        let g2 = fields::bytes_field(2, self.credential_request);
        let s2 = AuthStartView { credential_request: self.credential_request, ..s1 };
        fields::lemma_bytes_field(2, self.credential_request);
        fields::lemma_merged_small(step, s1, g2);
        assert(fields::merged(step, s1, g2) == Some(s2));
        let p2 = p1 + g2;
        fields::lemma_merged_concat(step, s0, p1, g2);
        assert(s2 =~= self);
    }
}

impl Message for AuthStart {
    fn depth() -> (depth: usize) {
        1
    }

    fn empty() -> (message: AuthStart) {
        let message = AuthStart {
            share_id: String::new(),
            credential_request: Vec::new(),
        };
        assert(message@ =~= AuthStartView::empty());
        message
    }

    fn encode_raw(&self, buf: &mut Vec<u8>) {
        let ghost start = buf@;
        fields::put_text(buf, 1, self.share_id.as_str());
        let ghost g1 = fields::text_field(1, self@.share_id);
        let ghost p1 = g1;
        fields::put_bytes(buf, 2, self.credential_request.as_slice());
        let ghost g2 = fields::bytes_field(2, self@.credential_request);
        let ghost p2 = p1 + g2;
        proof {
            fields::lemma_append(start, p1, g2);
        }
    }

    fn merge_field(&mut self, field: &RawField) -> (ok: bool) {
        match field.tag {
            1 => match fields::read_text(&field.value) {
                Some(x) => {
                    self.share_id = x;
                },
                None => {
                    return false;
                },
            },
            2 => match fields::read_bytes(&field.value) {
                Some(x) => {
                    self.credential_request = x;
                },
                None => {
                    return false;
                },
            },
            _ => {},
        }
        true
    }
}

/// The answer to `AuthStart`.
#[derive(Debug)]
pub struct AuthChallenge {
    pub credential_response: Vec<u8>,
    pub challenge_id: Vec<u8>,
}

/// The model of a [`AuthChallenge`].
#[verifier::ext_equal]
pub struct AuthChallengeView {
    pub credential_response: Seq<u8>,
    pub challenge_id: Seq<u8>,
}

impl View for AuthChallenge {
    type V = AuthChallengeView;

    open spec fn view(&self) -> AuthChallengeView {
        AuthChallengeView {
            credential_response: self.credential_response@,
            challenge_id: self.challenge_id@,
        }
    }
}

impl AuthChallengeView {
    /// The message once one more field was read.
    pub open spec fn step(self, field: Field) -> Option<AuthChallengeView> {
        if field.tag == 1 {
            match fields::bytes_value(field.value) {
                Some(x) => Some((AuthChallengeView { credential_response: x, ..self })),
                None => None,
            }
        } else if field.tag == 2 {
            match fields::bytes_value(field.value) {
                Some(x) => Some((AuthChallengeView { challenge_id: x, ..self })),
                None => None,
            }
        } else {
            Some(self)
        }
    }
}

impl Model for AuthChallengeView {
    open spec fn depth() -> nat {
        1
    }

    open spec fn empty() -> AuthChallengeView {
        AuthChallengeView {
            credential_response: Seq::empty(),
            challenge_id: Seq::empty(),
        }
    }

    open spec fn fields(self) -> Seq<Field> {
        fields::bytes_field(1, self.credential_response)
            + fields::bytes_field(2, self.challenge_id)
    }

    open spec fn stepper() -> spec_fn(AuthChallengeView, Field) -> Option<AuthChallengeView> {
        |message: AuthChallengeView, field: Field| message.step(field)
    }

    proof fn lemma_plain(self) {
        let g1 = fields::bytes_field(1, self.credential_response);
        let p1 = g1;
        let g2 = fields::bytes_field(2, self.challenge_id);
        let p2 = p1 + g2;
        fields::lemma_plain_concat(p1, g2);
    }

    proof fn lemma_merged(self) {
        let step = AuthChallengeView::stepper();
        let s0 = AuthChallengeView::empty();
        let g1 = fields::bytes_field(1, self.credential_response);
        let s1 = AuthChallengeView { credential_response: self.credential_response, ..s0 };
        fields::lemma_bytes_field(1, self.credential_response);
        fields::lemma_merged_small(step, s0, g1);
        assert(fields::merged(step, s0, g1) == Some(s1));
        let p1 = g1;
        let g2 = fields::bytes_field(2, self.challenge_id);
        let s2 = AuthChallengeView { challenge_id: self.challenge_id, ..s1 };
        fields::lemma_bytes_field(2, self.challenge_id);
        fields::lemma_merged_small(step, s1, g2);
        assert(fields::merged(step, s1, g2) == Some(s2));
        let p2 = p1 + g2;
        fields::lemma_merged_concat(step, s0, p1, g2);
        assert(s2 =~= self);
    }
}

impl Message for AuthChallenge {
    fn depth() -> (depth: usize) {
        1
    }

    fn empty() -> (message: AuthChallenge) {
        let message = AuthChallenge {
            credential_response: Vec::new(),
            challenge_id: Vec::new(),
        };
        assert(message@ =~= AuthChallengeView::empty());
        message
    }

    fn encode_raw(&self, buf: &mut Vec<u8>) {
        let ghost start = buf@;
        fields::put_bytes(buf, 1, self.credential_response.as_slice());
        let ghost g1 = fields::bytes_field(1, self@.credential_response);
        let ghost p1 = g1;
        fields::put_bytes(buf, 2, self.challenge_id.as_slice());
        let ghost g2 = fields::bytes_field(2, self@.challenge_id);
        let ghost p2 = p1 + g2;
        proof {
            fields::lemma_append(start, p1, g2);
        }
    }

    fn merge_field(&mut self, field: &RawField) -> (ok: bool) {
        match field.tag {
            1 => match fields::read_bytes(&field.value) {
                Some(x) => {
                    self.credential_response = x;
                },
                None => {
                    return false;
                },
            },
            2 => match fields::read_bytes(&field.value) {
                Some(x) => {
                    self.challenge_id = x;
                },
                None => {
                    return false;
                },
            },
            _ => {},
        }
        true
    }
}

/// Closes a login.
#[derive(Debug)]
pub struct AuthFinish {
    pub challenge_id: Vec<u8>,
    pub credential_finalization: Vec<u8>,
}

/// The model of a [`AuthFinish`].
#[verifier::ext_equal]
pub struct AuthFinishView {
    pub challenge_id: Seq<u8>,
    pub credential_finalization: Seq<u8>,
}

impl View for AuthFinish {
    type V = AuthFinishView;

    open spec fn view(&self) -> AuthFinishView {
        AuthFinishView {
            challenge_id: self.challenge_id@,
            credential_finalization: self.credential_finalization@,
        }
    }
}

impl AuthFinishView {
    /// The message once one more field was read.
    pub open spec fn step(self, field: Field) -> Option<AuthFinishView> {
        if field.tag == 1 {
            match fields::bytes_value(field.value) {
                Some(x) => Some((AuthFinishView { challenge_id: x, ..self })),
                None => None,
            }
        } else if field.tag == 2 {
            match fields::bytes_value(field.value) {
                Some(x) => Some((AuthFinishView { credential_finalization: x, ..self })),
                None => None,
            }
        } else {
            Some(self)
        }
    }
}

impl Model for AuthFinishView {
    open spec fn depth() -> nat {
        1
    }

    open spec fn empty() -> AuthFinishView {
        AuthFinishView {
            challenge_id: Seq::empty(),
            credential_finalization: Seq::empty(),
        }
    }

    open spec fn fields(self) -> Seq<Field> {
        fields::bytes_field(1, self.challenge_id)
            + fields::bytes_field(2, self.credential_finalization)
    }

    open spec fn stepper() -> spec_fn(AuthFinishView, Field) -> Option<AuthFinishView> {
        |message: AuthFinishView, field: Field| message.step(field)
    }

    proof fn lemma_plain(self) {
        let g1 = fields::bytes_field(1, self.challenge_id);
        let p1 = g1;
        let g2 = fields::bytes_field(2, self.credential_finalization);
        let p2 = p1 + g2;
        fields::lemma_plain_concat(p1, g2);
    }

    proof fn lemma_merged(self) {
        let step = AuthFinishView::stepper();
        let s0 = AuthFinishView::empty();
        let g1 = fields::bytes_field(1, self.challenge_id);
        let s1 = AuthFinishView { challenge_id: self.challenge_id, ..s0 };
        fields::lemma_bytes_field(1, self.challenge_id);
        fields::lemma_merged_small(step, s0, g1);
        assert(fields::merged(step, s0, g1) == Some(s1));
        let p1 = g1;
        let g2 = fields::bytes_field(2, self.credential_finalization);
        let s2 = AuthFinishView { credential_finalization: self.credential_finalization, ..s1 };
        fields::lemma_bytes_field(2, self.credential_finalization);
        fields::lemma_merged_small(step, s1, g2);
        assert(fields::merged(step, s1, g2) == Some(s2));
        let p2 = p1 + g2;
        fields::lemma_merged_concat(step, s0, p1, g2);
        assert(s2 =~= self);
    }
}

impl Message for AuthFinish {
    fn depth() -> (depth: usize) {
        1
    }

    fn empty() -> (message: AuthFinish) {
        let message = AuthFinish {
            challenge_id: Vec::new(),
            credential_finalization: Vec::new(),
        };
        assert(message@ =~= AuthFinishView::empty());
        message
    }

    fn encode_raw(&self, buf: &mut Vec<u8>) {
        let ghost start = buf@;
        fields::put_bytes(buf, 1, self.challenge_id.as_slice());
        let ghost g1 = fields::bytes_field(1, self@.challenge_id);
        let ghost p1 = g1;
        fields::put_bytes(buf, 2, self.credential_finalization.as_slice());
        let ghost g2 = fields::bytes_field(2, self@.credential_finalization);
        let ghost p2 = p1 + g2;
        proof {
            fields::lemma_append(start, p1, g2);
        }
    }

    fn merge_field(&mut self, field: &RawField) -> (ok: bool) {
        match field.tag {
            1 => match fields::read_bytes(&field.value) {
                Some(x) => {
                    self.challenge_id = x;
                },
                None => {
                    return false;
                },
            },
            2 => match fields::read_bytes(&field.value) {
                Some(x) => {
                    self.credential_finalization = x;
                },
                None => {
                    return false;
                },
            },
            _ => {},
        }
        true
    }
}

/// How a login or an attach ended.
#[derive(Debug)]
pub struct AuthResult {
    pub success: bool,
    pub session_id: String,
    pub server_proof: Vec<u8>,
    pub error: String,
}

/// The model of a [`AuthResult`].
#[verifier::ext_equal]
pub struct AuthResultView {
    pub success: bool,
    pub session_id: Seq<char>,
    pub server_proof: Seq<u8>,
    pub error: Seq<char>,
}

impl View for AuthResult {
    type V = AuthResultView;

    open spec fn view(&self) -> AuthResultView {
        AuthResultView {
            success: self.success,
            session_id: self.session_id@,
            server_proof: self.server_proof@,
            error: self.error@,
        }
    }
}

impl AuthResultView {
    /// The message once one more field was read.
    pub open spec fn step(self, field: Field) -> Option<AuthResultView> {
        if field.tag == 1 {
            match fields::number_value(field.value) {
                Some(x) => Some((AuthResultView { success: x != 0, ..self })),
                None => None,
            }
        } else if field.tag == 2 {
            match fields::text_value(field.value) {
                Some(x) => Some((AuthResultView { session_id: x, ..self })),
                None => None,
            }
        } else if field.tag == 3 {
            match fields::bytes_value(field.value) {
                Some(x) => Some((AuthResultView { server_proof: x, ..self })),
                None => None,
            }
        } else if field.tag == 4 {
            match fields::text_value(field.value) {
                Some(x) => Some((AuthResultView { error: x, ..self })),
                None => None,
            }
        } else {
            Some(self)
        }
    }
}

impl Model for AuthResultView {
    open spec fn depth() -> nat {
        1
    }

    open spec fn empty() -> AuthResultView {
        AuthResultView {
            success: false,
            session_id: Seq::empty(),
            server_proof: Seq::empty(),
            error: Seq::empty(),
        }
    }

    open spec fn fields(self) -> Seq<Field> {
        fields::flag_field(1, self.success)
            + fields::text_field(2, self.session_id)
            + fields::bytes_field(3, self.server_proof)
            + fields::text_field(4, self.error)
    }

    open spec fn stepper() -> spec_fn(AuthResultView, Field) -> Option<AuthResultView> {
        |message: AuthResultView, field: Field| message.step(field)
    }

    proof fn lemma_plain(self) {
        let g1 = fields::flag_field(1, self.success);
        let p1 = g1;
        let g2 = fields::text_field(2, self.session_id);
        let p2 = p1 + g2;
        fields::lemma_plain_concat(p1, g2);
        let g3 = fields::bytes_field(3, self.server_proof);
        let p3 = p2 + g3;
        fields::lemma_plain_concat(p2, g3);
        let g4 = fields::text_field(4, self.error);
        let p4 = p3 + g4;
        fields::lemma_plain_concat(p3, g4);
    }

    proof fn lemma_merged(self) {
        let step = AuthResultView::stepper();
        let s0 = AuthResultView::empty();
        let g1 = fields::flag_field(1, self.success);
        let s1 = AuthResultView { success: self.success, ..s0 };
        fields::lemma_merged_small(step, s0, g1);
        assert(fields::merged(step, s0, g1) == Some(s1));
        let p1 = g1;
        let g2 = fields::text_field(2, self.session_id);
        let s2 = AuthResultView { session_id: self.session_id, ..s1 };
        fields::lemma_text_field(2, self.session_id);
        fields::lemma_merged_small(step, s1, g2);
        assert(fields::merged(step, s1, g2) == Some(s2));
        let p2 = p1 + g2;
        fields::lemma_merged_concat(step, s0, p1, g2);
        let g3 = fields::bytes_field(3, self.server_proof);
        let s3 = AuthResultView { server_proof: self.server_proof, ..s2 };
        fields::lemma_bytes_field(3, self.server_proof);
        fields::lemma_merged_small(step, s2, g3);
        assert(fields::merged(step, s2, g3) == Some(s3));
        let p3 = p2 + g3;
        fields::lemma_merged_concat(step, s0, p2, g3);
        let g4 = fields::text_field(4, self.error);
        let s4 = AuthResultView { error: self.error, ..s3 };
        fields::lemma_text_field(4, self.error);
        fields::lemma_merged_small(step, s3, g4);
        assert(fields::merged(step, s3, g4) == Some(s4));
        let p4 = p3 + g4;
        fields::lemma_merged_concat(step, s0, p3, g4);
        assert(s4 =~= self);
    }
}

impl Message for AuthResult {
    fn depth() -> (depth: usize) {
        1
    }

    fn empty() -> (message: AuthResult) {
        let message = AuthResult {
            success: false,
            session_id: String::new(),
            server_proof: Vec::new(),
            error: String::new(),
        };
        assert(message@ =~= AuthResultView::empty());
        message
    }

    fn encode_raw(&self, buf: &mut Vec<u8>) {
        let ghost start = buf@;
        fields::put_flag(buf, 1, self.success);
        let ghost g1 = fields::flag_field(1, self@.success);
        let ghost p1 = g1;
        fields::put_text(buf, 2, self.session_id.as_str());
        let ghost g2 = fields::text_field(2, self@.session_id);
        let ghost p2 = p1 + g2;
        proof {
            fields::lemma_append(start, p1, g2);
        }
        fields::put_bytes(buf, 3, self.server_proof.as_slice());
        let ghost g3 = fields::bytes_field(3, self@.server_proof);
        let ghost p3 = p2 + g3;
        proof {
            fields::lemma_append(start, p2, g3);
        }
        fields::put_text(buf, 4, self.error.as_str());
        let ghost g4 = fields::text_field(4, self@.error);
        let ghost p4 = p3 + g4;
        proof {
            fields::lemma_append(start, p3, g4);
        }
    }

    fn merge_field(&mut self, field: &RawField) -> (ok: bool) {
        match field.tag {
            1 => match fields::read_number(&field.value) {
                Some(x) => {
                    self.success = x != 0;
                },
                None => {
                    return false;
                },
            },
            2 => match fields::read_text(&field.value) {
                Some(x) => {
                    self.session_id = x;
                },
                None => {
                    return false;
                },
            },
            3 => match fields::read_bytes(&field.value) {
                Some(x) => {
                    self.server_proof = x;
                },
                None => {
                    return false;
                },
            },
            4 => match fields::read_text(&field.value) {
                Some(x) => {
                    self.error = x;
                },
                None => {
                    return false;
                },
            },
            _ => {},
        }
        true
    }
}

/// Joins a further connection to a session.
#[derive(Debug)]
pub struct SessionAttach {
    pub session_id: String,
    pub nonce: Vec<u8>,
    pub proof: Vec<u8>,
}

/// The model of a [`SessionAttach`].
#[verifier::ext_equal]
pub struct SessionAttachView {
    pub session_id: Seq<char>,
    pub nonce: Seq<u8>,
    pub proof: Seq<u8>,
}

impl View for SessionAttach {
    type V = SessionAttachView;

    open spec fn view(&self) -> SessionAttachView {
        SessionAttachView {
            session_id: self.session_id@,
            nonce: self.nonce@,
            proof: self.proof@,
        }
    }
}

impl SessionAttachView {
    /// The message once one more field was read.
    pub open spec fn step(self, field: Field) -> Option<SessionAttachView> {
        if field.tag == 1 {
            match fields::text_value(field.value) {
                Some(x) => Some((SessionAttachView { session_id: x, ..self })),
                None => None,
            }
        } else if field.tag == 2 {
            match fields::bytes_value(field.value) {
                Some(x) => Some((SessionAttachView { nonce: x, ..self })),
                None => None,
            }
        } else if field.tag == 3 {
            match fields::bytes_value(field.value) {
                Some(x) => Some((SessionAttachView { proof: x, ..self })),
                None => None,
            }
        } else {
            Some(self)
        }
    }
}

impl Model for SessionAttachView {
    open spec fn depth() -> nat {
        1
    }

    open spec fn empty() -> SessionAttachView {
        SessionAttachView {
            session_id: Seq::empty(),
            nonce: Seq::empty(),
            proof: Seq::empty(),
        }
    }

    open spec fn fields(self) -> Seq<Field> {
        fields::text_field(1, self.session_id)
            + fields::bytes_field(2, self.nonce)
            + fields::bytes_field(3, self.proof)
    }

    open spec fn stepper() -> spec_fn(SessionAttachView, Field) -> Option<SessionAttachView> {
        |message: SessionAttachView, field: Field| message.step(field)
    }

    proof fn lemma_plain(self) {
        let g1 = fields::text_field(1, self.session_id);
        let p1 = g1;
        let g2 = fields::bytes_field(2, self.nonce);
        let p2 = p1 + g2;
        fields::lemma_plain_concat(p1, g2);
        let g3 = fields::bytes_field(3, self.proof);
        let p3 = p2 + g3;
        fields::lemma_plain_concat(p2, g3);
    }

    proof fn lemma_merged(self) {
        let step = SessionAttachView::stepper();
        let s0 = SessionAttachView::empty();
        let g1 = fields::text_field(1, self.session_id);
        let s1 = SessionAttachView { session_id: self.session_id, ..s0 };
        fields::lemma_text_field(1, self.session_id);
        fields::lemma_merged_small(step, s0, g1);
        assert(fields::merged(step, s0, g1) == Some(s1));
        let p1 = g1;
        let g2 = fields::bytes_field(2, self.nonce);
        let s2 = SessionAttachView { nonce: self.nonce, ..s1 };
        fields::lemma_bytes_field(2, self.nonce);
        fields::lemma_merged_small(step, s1, g2);
        assert(fields::merged(step, s1, g2) == Some(s2));
        let p2 = p1 + g2;
        fields::lemma_merged_concat(step, s0, p1, g2);
        let g3 = fields::bytes_field(3, self.proof);
        let s3 = SessionAttachView { proof: self.proof, ..s2 };
        fields::lemma_bytes_field(3, self.proof);
        fields::lemma_merged_small(step, s2, g3);
        assert(fields::merged(step, s2, g3) == Some(s3));
        let p3 = p2 + g3;
        fields::lemma_merged_concat(step, s0, p2, g3);
        assert(s3 =~= self);
    }
}

impl Message for SessionAttach {
    fn depth() -> (depth: usize) {
        1
    }

    fn empty() -> (message: SessionAttach) {
        let message = SessionAttach {
            session_id: String::new(),
            nonce: Vec::new(),
            proof: Vec::new(),
        };
        assert(message@ =~= SessionAttachView::empty());
        message
    }

    fn encode_raw(&self, buf: &mut Vec<u8>) {
        let ghost start = buf@;
        fields::put_text(buf, 1, self.session_id.as_str());
        let ghost g1 = fields::text_field(1, self@.session_id);
        let ghost p1 = g1;
        fields::put_bytes(buf, 2, self.nonce.as_slice());
        let ghost g2 = fields::bytes_field(2, self@.nonce);
        let ghost p2 = p1 + g2;
        proof {
            fields::lemma_append(start, p1, g2);
        }
        fields::put_bytes(buf, 3, self.proof.as_slice());
        let ghost g3 = fields::bytes_field(3, self@.proof);
        let ghost p3 = p2 + g3;
        proof {
            fields::lemma_append(start, p2, g3);
        }
    }

    fn merge_field(&mut self, field: &RawField) -> (ok: bool) {
        match field.tag {
            1 => match fields::read_text(&field.value) {
                Some(x) => {
                    self.session_id = x;
                },
                None => {
                    return false;
                },
            },
            2 => match fields::read_bytes(&field.value) {
                Some(x) => {
                    self.nonce = x;
                },
                None => {
                    return false;
                },
            },
            3 => match fields::read_bytes(&field.value) {
                Some(x) => {
                    self.proof = x;
                },
                None => {
                    return false;
                },
            },
            _ => {},
        }
        true
    }
}

} // verus!
