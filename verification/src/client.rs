//! The asking side of a connection: requests and their answers.

use std::collections::HashSet;
use vstd::prelude::*;
use vstd::utf8;

use crate::auth;
use crate::auth::ClientPendingLogin;
use crate::error::{ErrorView, LanFlowError};
use crate::fields;
use crate::frame::{Frame, FrameHeader, FrameType, FrameView, FLAG_MORE};
use crate::listing;
use crate::message;
use crate::models::{
    PeerDto,
    PeerDtoView,
    RemoteEntryDto,
    RemoteEntryDtoView,
    RemoteShareDto,
    RemoteShareDtoView,
    ShareDtoView,
};
use crate::outside::hash;
use crate::outside::machine;
use crate::outside::opaque;
use crate::paging;
use crate::protocol;
use crate::protocol::{decode_envelope, MAX_FRAME_SIZE, PROTOCOL_MAJOR};
use crate::replies;
use crate::replies::DataBlock;
use crate::server;
use crate::snapshot;
use crate::snapshot::SnapshotView;
use crate::text;
use crate::wire::envelope::{EnvelopeView, Payload, PayloadView};
use crate::wire::listing::{EntryView, ShareInfoView};
use crate::wire::session::{
    AuthChallengeView,
    AuthFinish,
    AuthFinishView,
    AuthResultView,
    AuthStart,
    AuthStartView,
    Hello,
    HelloView,
    SessionAttach,
    SessionAttachView,
    VersionRejectView,
};
use crate::wire::snapshot::{
    ChunkHash,
    ChunkHashView,
    ManifestFile,
    ManifestFileView,
    SnapshotManifest,
    SnapshotManifestPage,
    SnapshotManifestPageView,
    SnapshotManifestView,
    SnapshotProgress,
    SnapshotProgressView,
};
use crate::wire::transfer::ChunkRequestView;

verus! {

broadcast use vstd::std_specs::hash::group_hash_axioms;

// ---------------------------------------------------------------------------
// Opening a connection
// ---------------------------------------------------------------------------

/// The first frame of a connection.
pub fn hello_frame(device_id: &str, device_name: &str) -> (frame: Frame)
    ensures
        frame@ == (FrameView {
            header: FrameHeader::plain(FrameType::Hello, 0, 1),
            body: message::encoded(
                EnvelopeView {
                    payload: Some(PayloadView::Hello(server::own_hello(device_id@, device_name@))),
                },
            ),
        }),
{
    let hello = server::hello_message(device_id, device_name);
    Frame {
        header: FrameHeader::new(FrameType::Hello, 0, 1),
        body: message::encode(&protocol::envelope(Payload::Hello(hello))),
    }
}

/// What the answer to the first frame says.
pub open spec fn hello_of(body: Seq<u8>) -> Result<HelloView, ErrorView> {
    match message::decoded::<EnvelopeView>(body) {
        None => Err(protocol::decode_failure().lifted()),
        Some(envelope) => match envelope.payload {
            Some(PayloadView::Hello(hello)) => Ok(hello),
            Some(PayloadView::VersionReject(reject)) => Err(ErrorView::Protocol(reject.reason)),
            _ => Err(ErrorView::Protocol("服务端 Hello 响应无效"@)),
        },
    }
}

/// Reads the answer to the first frame.
pub fn accept_hello(body: &[u8]) -> (hello: Result<Hello, LanFlowError>)
    ensures
        match hello_of(body@) {
            Ok(expected) => hello matches Ok(h) && h@ == expected,
            Err(error) => hello matches Err(e) && e@ == error,
        },
{
    match decode_envelope(body) {
        Err(error) => Err(LanFlowError::from_protocol(error)),
        Ok(envelope) => match envelope.payload {
            Some(Payload::Hello(hello)) => Ok(hello),
            Some(Payload::VersionReject(reject)) => Err(LanFlowError::Protocol(reject.reason)),
            _ => Err(LanFlowError::Protocol("服务端 Hello 响应无效".to_owned())),
        },
    }
}

/// A device and a server of the same version come to terms: the server's
/// answer to the device's first frame is a hello, and the device reads in it
/// what the server says of itself.
pub proof fn law_handshake(
    server: server::ServerView,
    device_id: Seq<char>,
    device_name: Seq<char>,
)
    requires
        message::encoded(
            EnvelopeView {
                payload: Some(PayloadView::Hello(server::own_hello(device_id, device_name))),
            },
        ).len() <= u64::MAX,
        message::encoded(
            EnvelopeView {
                payload: Some(
                    PayloadView::Hello(server::own_hello(server.device_id, server.device_name)),
                ),
            },
        ).len() <= u64::MAX,
    ensures
        ({
            let first = FrameView {
                header: FrameHeader::plain(FrameType::Hello, 0, 1),
                body: message::encoded(
                    EnvelopeView {
                        payload: Some(
                            PayloadView::Hello(server::own_hello(device_id, device_name)),
                        ),
                    },
                ),
            };
            server::greeting_of(server, first) matches server::GreetingView::Accepted(frame, _)
                && hello_of(frame.body) == Ok::<HelloView, ErrorView>(
                server::own_hello(server.device_id, server.device_name),
            )
        }),
{
    message::lemma_roundtrip(
        EnvelopeView {
            payload: Some(PayloadView::Hello(server::own_hello(device_id, device_name))),
        },
    );
    message::lemma_roundtrip(
        EnvelopeView {
            payload: Some(
                PayloadView::Hello(server::own_hello(server.device_id, server.device_name)),
            ),
        },
    );
}

/// What is known of a device that was connected to.
pub fn peer_from_hello(hello: &Hello, address: String, port: u16, manual: bool, now: i64) -> (peer:
    PeerDto)
    ensures
        peer@ == (PeerDtoView {
            id: hello@.device_id,
            name: hello@.device_name,
            address: address@,
            port,
            online: true,
            manual,
            protocol_major: PROTOCOL_MAJOR,
            protocol_minor: hello@.max_minor as u16,
            last_seen: now,
        }),
{
    PeerDto {
        id: hello.device_id.clone(),
        name: hello.device_name.clone(),
        address,
        port,
        online: true,
        manual,
        protocol_major: PROTOCOL_MAJOR,
        protocol_minor: #[verifier::truncate] (hello.max_minor as u16),
        last_seen: now,
    }
}

/// The error for an address that is no address.
pub fn bad_address() -> (error: LanFlowError)
    ensures
        error@ == ErrorView::InvalidInput("地址必须为 IP:端口"@),
{
    LanFlowError::InvalidInput("地址必须为 IP:端口".to_owned())
}

// ---------------------------------------------------------------------------
// Requests that wait for answers
// ---------------------------------------------------------------------------

/// The requests of a connection that wait for answers.
pub struct Router {
    pub next_request: u64,
    pub next_stream: u32,
    pub open: HashSet<u64>,
}

/// The model of a [`Router`].
#[verifier::ext_equal]
pub struct RouterView {
    pub next_request: u64,
    pub next_stream: u32,
    pub open: Set<u64>,
}

impl View for Router {
    type V = RouterView;

    open spec fn view(&self) -> RouterView {
        RouterView {
            next_request: self.next_request,
            next_stream: self.next_stream,
            open: self.open@,
        }
    }
}

/// Whether a frame is the last answer to its request.
pub open spec fn is_final(header: FrameHeader) -> bool {
    header.frame_type != FrameType::Data && header.flags & FLAG_MORE == 0
}

/// Whether a frame is the last answer to its request.
pub fn final_frame(header: &FrameHeader) -> (last: bool)
    ensures
        last == is_final(*header),
{
    !matches!(header.frame_type, FrameType::Data) && header.flags & FLAG_MORE == 0
}

/// The number after another, from the largest back to zero.
pub open spec fn after_request(n: u64) -> u64 {
    if n == u64::MAX {
        0
    } else {
        (n + 1) as u64
    }
}

pub open spec fn after_stream(n: u32) -> u32 {
    if n == u32::MAX {
        0
    } else {
        (n + 1) as u32
    }
}

/// What the requests become when one is opened, and its numbers.
pub open spec fn request_started(router: RouterView) -> (RouterView, (u64, u32)) {
    (
        RouterView {
            next_request: after_request(router.next_request),
            next_stream: after_stream(router.next_stream),
            open: router.open.insert(router.next_request),
        },
        (router.next_request, router.next_stream),
    )
}

/// What the requests become when one is given up.
pub open spec fn request_given_up(router: RouterView, request: u64) -> RouterView {
    RouterView { open: router.open.remove(request), ..router }
}

/// What the requests become with a frame, and whether it is handed to one of
/// them.
pub open spec fn frame_delivered(router: RouterView, header: FrameHeader) -> (RouterView, bool) {
    let delivered = !(header.frame_type is Unknown) && router.open.contains(header.request_id);
    (
        if delivered && is_final(header) {
            RouterView { open: router.open.remove(header.request_id), ..router }
        } else {
            router
        },
        delivered,
    )
}

impl Router {
    pub fn new() -> (router: Router)
        ensures
            router@ == (RouterView { next_request: 2, next_stream: 1, open: Set::empty() }),
    {
        Router { next_request: 2, next_stream: 1, open: HashSet::new() }
    }

    /// Opens a request: the numbers of the request and of its stream.
    pub fn start(&mut self) -> (numbers: (u64, u32))
        ensures
            numbers == (old(self)@.next_request, old(self)@.next_stream),
            final(self)@ == (RouterView {
                next_request: after_request(old(self)@.next_request),
                next_stream: after_stream(old(self)@.next_stream),
                open: old(self)@.open.insert(old(self)@.next_request),
            }),
            (final(self)@, numbers) == request_started(old(self)@),
    {
        let request: u64 = self.next_request;
        let stream: u32 = self.next_stream;
        self.next_request = if request == u64::MAX {
            0
        } else {
            request + 1
        };
        self.next_stream = if stream == u32::MAX {
            0
        } else {
            stream + 1
        };
        self.open.insert(request);
        (request, stream)
    }

    /// Gives a request up.
    pub fn give_up(&mut self, request: u64)
        ensures
            final(self)@ == (RouterView { open: old(self)@.open.remove(request), ..old(self)@ }),
            final(self)@ == request_given_up(old(self)@, request),
    {
        self.open.remove(&request);
    }

    /// Whether a frame is handed to a request that waits for it. The last
    /// answer closes the request.
    pub fn deliver(&mut self, header: &FrameHeader) -> (delivered: bool)
        ensures
            delivered == (!(header.frame_type is Unknown) && old(self)@.open.contains(
                header.request_id,
            )),
            final(self)@ == if delivered && is_final(*header) {
                RouterView { open: old(self)@.open.remove(header.request_id), ..old(self)@ }
            } else {
                old(self)@
            },
            (final(self)@, delivered) == frame_delivered(old(self)@, *header),
    {
        if matches!(header.frame_type, FrameType::Unknown(_)) {
            return false;
        }
        if !self.open.contains(&header.request_id) {
            return false;
        }
        if final_frame(header) {
            self.open.remove(&header.request_id);
        }
        true
    }
}

/// The frame of a request.
pub fn request_frame(request_id: u64, stream_id: u32, payload: Payload) -> (frame: Frame)
    ensures
        frame@ == (FrameView {
            header: FrameHeader::plain(FrameType::Control, stream_id, request_id),
            body: message::encoded(EnvelopeView { payload: Some(payload@) }),
        }),
{
    Frame {
        header: FrameHeader::new(FrameType::Control, stream_id, request_id),
        body: message::encode(&protocol::envelope(payload)),
    }
}

/// How waiting for an answer ended.
pub enum Received {
    Frame(Frame),
    /// The connection was closed.
    Closed,
    /// No answer came in time.
    TimedOut,
}

/// The model of [`Received`].
#[verifier::ext_equal]
pub enum ReceivedView {
    Frame(FrameView),
    Closed,
    TimedOut,
}

impl View for Received {
    type V = ReceivedView;

    open spec fn view(&self) -> ReceivedView {
        match self {
            Received::Frame(frame) => ReceivedView::Frame(frame@),
            Received::Closed => ReceivedView::Closed,
            Received::TimedOut => ReceivedView::TimedOut,
        }
    }
}

/// The answer to a request that has one answer.
pub open spec fn answer_of(received: ReceivedView) -> Result<PayloadView, ErrorView> {
    match received {
        ReceivedView::Closed => Err(ErrorView::Protocol("连接在响应前关闭"@)),
        ReceivedView::TimedOut => Err(ErrorView::Protocol("请求响应超时"@)),
        ReceivedView::Frame(frame) => match message::decoded::<EnvelopeView>(frame.body) {
            None => Err(protocol::decode_failure().lifted()),
            Some(envelope) => match envelope.payload {
                Some(PayloadView::Error(error)) => Err(ErrorView::Protocol(error.message)),
                Some(payload) => Ok(payload),
                None => Err(ErrorView::Protocol("空响应"@)),
            },
        },
    }
}

/// The answer to a request that has one answer.
pub fn unary_answer(received: &Received) -> (answer: Result<Payload, LanFlowError>)
    ensures
        match answer_of(received@) {
            Ok(expected) => answer matches Ok(payload) && payload@ == expected,
            Err(error) => answer matches Err(e) && e@ == error,
        },
{
    match received {
        Received::Closed => Err(LanFlowError::Protocol("连接在响应前关闭".to_owned())),
        Received::TimedOut => Err(LanFlowError::Protocol("请求响应超时".to_owned())),
        Received::Frame(frame) => match decode_envelope(frame.body.as_slice()) {
            Err(error) => Err(LanFlowError::from_protocol(error)),
            Ok(envelope) => match envelope.payload {
                Some(Payload::Error(error)) => Err(LanFlowError::Protocol(error.message)),
                Some(payload) => Ok(payload),
                None => Err(LanFlowError::Protocol("空响应".to_owned())),
            },
        },
    }
}

// ---------------------------------------------------------------------------
// Sessions
// ---------------------------------------------------------------------------

/// A session with a server.
#[derive(Debug)]
pub struct AuthSession {
    pub session_id: String,
    pub key: Vec<u8>,
}

/// The model of an [`AuthSession`].
#[verifier::ext_equal]
pub struct AuthSessionView {
    pub session_id: Seq<char>,
    pub key: Seq<u8>,
}

impl View for AuthSession {
    type V = AuthSessionView;

    open spec fn view(&self) -> AuthSessionView {
        AuthSessionView { session_id: self.session_id@, key: self.key@ }
    }
}

impl Clone for AuthSession {
    fn clone(&self) -> (copy: AuthSession)
        ensures
            copy@ == self@,
    {
        AuthSession {
            session_id: self.session_id.clone(),
            key: fields::copy_bytes(self.key.as_slice()),
        }
    }
}

/// Begins to log in to a share: the request, and what closes the login.
pub fn begin_authentication(share_id: String, password: String) -> (begun: Result<
    (Payload, ClientPendingLogin),
    LanFlowError,
>)
    ensures
        begun is Ok,
        begun matches Ok((payload, login)) ==> login.password() == password@ && (payload@
            matches PayloadView::AuthStart(start) && start.share_id == share_id@
            && opaque::login_started(
            utf8::encode_utf8(password@),
            login.state(),
            start.credential_request,
        )),
{
    match auth::begin_client_login(password) {
        Ok((request, login)) => Ok(
            (Payload::AuthStart(AuthStart { share_id, credential_request: request }), login),
        ),
        Err(error) => Err(error),
    }
}

/// What closes a login, once the server answered: a message and the session
/// key.
pub open spec fn challenge_answer(
    state: Seq<u8>,
    password: Seq<char>,
    payload: PayloadView,
) -> Result<(PayloadView, Seq<u8>), ErrorView> {
    match payload {
        PayloadView::AuthChallenge(challenge) => match opaque::client_finished(
            state,
            utf8::encode_utf8(password),
            challenge.credential_response,
        ) {
            Ok(Some((finalization, key))) => Ok(
                (
                    PayloadView::AuthFinish(
                        AuthFinishView {
                            challenge_id: challenge.challenge_id,
                            credential_finalization: finalization,
                        },
                    ),
                    key,
                ),
            ),
            Ok(None) => Err(ErrorView::Auth("密码不正确"@)),
            Err(text) => Err(ErrorView::Auth(text)),
        },
        _ => Err(ErrorView::Protocol("认证挑战响应无效"@)),
    }
}

/// Closes a login, once the server answered.
pub fn answer_challenge(login: ClientPendingLogin, payload: Payload) -> (answer: Result<
    (Payload, Vec<u8>),
    LanFlowError,
>)
    ensures
        match challenge_answer(login.state(), login.password(), payload@) {
            Ok((message, key)) => answer matches Ok((m, k)) && m@ == message && k@ == key,
            Err(error) => answer matches Err(e) && e@ == error,
        },
{
    match payload {
        Payload::AuthChallenge(challenge) => match login.finish(
            challenge.credential_response.as_slice(),
        ) {
            Ok((finalization, key)) => Ok(
                (
                    Payload::AuthFinish(
                        AuthFinish {
                            challenge_id: challenge.challenge_id,
                            credential_finalization: finalization,
                        },
                    ),
                    key,
                ),
            ),
            Err(error) => Err(error),
        },
        _ => Err(LanFlowError::Protocol("认证挑战响应无效".to_owned())),
    }
}

/// The session that a login ends with: the server has to prove that it has
/// the same key.
pub open spec fn session_of(payload: PayloadView, key: Seq<u8>) -> Result<AuthSessionView, ErrorView> {
    match payload {
        PayloadView::AuthResult(result) => if !result.success {
            Err(ErrorView::Auth(result.error))
        } else if result.server_proof != server::login_proof(key, result.session_id) {
            Err(ErrorView::Auth("消息认证码无效"@))
        } else {
            Ok(AuthSessionView { session_id: result.session_id, key })
        },
        _ => Err(ErrorView::Protocol("认证结果响应无效"@)),
    }
}

/// The session that a login ends with.
pub fn conclude_authentication(payload: Payload, key: Vec<u8>) -> (session: Result<
    AuthSession,
    LanFlowError,
>)
    ensures
        match session_of(payload@, key@) {
            Ok(expected) => session matches Ok(s) && s@ == expected,
            Err(error) => session matches Err(e) && e@ == error,
        },
{
    let result = match payload {
        Payload::AuthResult(result) => result,
        _ => {
            return Err(LanFlowError::Protocol("认证结果响应无效".to_owned()));
        },
    };
    if !result.success {
        return Err(LanFlowError::Auth(result.error));
    }
    let mut parts: Vec<&[u8]> = Vec::new();
    parts.push("lanflow-auth-ok".as_bytes());
    parts.push(result.session_id.as_str().as_bytes());
    let ghost expected = seq![
        utf8::encode_utf8("lanflow-auth-ok"@),
        utf8::encode_utf8(result.session_id@),
    ];
    assert(auth::part_views(parts@) =~= expected);
    match auth::verify_mac(key.as_slice(), parts.as_slice(), result.server_proof.as_slice()) {
        Ok(_) => {},
        Err(error) => {
            return Err(error);
        },
    }
    Ok(AuthSession { session_id: result.session_id, key })
}

/// The request to join a session, with a given nonce.
pub open spec fn attach_message(session: AuthSessionView, nonce: Seq<u8>) -> SessionAttachView {
    SessionAttachView {
        session_id: session.session_id,
        nonce,
        proof: server::attach_proof(session.key, session.session_id, nonce),
    }
}

/// The request to join a session, with a given nonce.
pub fn attach_request_with(session: &AuthSession, nonce: Vec<u8>) -> (request: SessionAttach)
    ensures
        request@ == attach_message(session@, nonce@),
{
    let mut parts: Vec<&[u8]> = Vec::new();
    parts.push("lanflow-attach".as_bytes());
    parts.push(session.session_id.as_str().as_bytes());
    parts.push(nonce.as_slice());
    let ghost expected = seq![
        utf8::encode_utf8("lanflow-attach"@),
        utf8::encode_utf8(session.session_id@),
        nonce@,
    ];
    assert(auth::part_views(parts@) =~= expected);
    let proof_bytes = match auth::mac(session.key.as_slice(), parts.as_slice()) {
        Ok(tag) => tag,
        Err(_) => Vec::new(),
    };
    SessionAttach { session_id: session.session_id.clone(), nonce, proof: proof_bytes }
}

/// The request to join a session, with a nonce of 32 bytes that is drawn.
pub fn attach_request(session: &AuthSession) -> (request: SessionAttach)
    ensures
        exists|nonce: Seq<u8>| #[trigger] nonce.len() == 32 && request@ == attach_message(session@, nonce),
{
    let nonce = machine::random_bytes(32);
    let ghost drawn = nonce@;
    let request = attach_request_with(session, nonce);
    assert(drawn.len() == 32 && request@ == attach_message(session@, drawn));
    request
}

/// What the answer to an attach says.
pub fn attach_result(payload: Payload) -> (attached: Result<(), LanFlowError>)
    ensures
        match payload@ {
            PayloadView::AuthResult(result) => if result.success {
                attached is Ok
            } else {
                attached matches Err(e) && e@ == ErrorView::Auth(result.error)
            },
            _ => attached matches Err(e) && e@ == ErrorView::Protocol("附加会话响应无效"@),
        },
{
    match payload {
        Payload::AuthResult(result) => if result.success {
            Ok(())
        } else {
            Err(LanFlowError::Auth(result.error))
        },
        _ => Err(LanFlowError::Protocol("附加会话响应无效".to_owned())),
    }
}

/// A client that has a session can join further connections to it: the server
/// that keeps the session accepts the request.
pub proof fn law_attach_is_accepted(
    server: server::ServerView,
    connection: server::ConnectionView,
    header: FrameHeader,
    session: AuthSessionView,
    nonce: Seq<u8>,
)
    requires
        server.sessions.contains_key(session.session_id),
        server.sessions[session.session_id].key == session.key,
    ensures
        ({
            let step = server::attach_step(
                server,
                connection,
                header,
                attach_message(session, nonce),
            );
            &&& step.connection.active == Some(server.sessions[session.session_id])
            &&& step.action is Reply
        }),
{
}

/// A login that the server ends well gives client and server the same
/// session: the client accepts the server's proof.
pub proof fn law_login_result_is_accepted(
    server: server::ServerView,
    connection: server::ConnectionView,
    header: FrameHeader,
    request: AuthFinishView,
    fresh: Seq<char>,
    key: Seq<u8>,
)
    requires
        connection.pending.contains_key(server::challenge_key(request.challenge_id)),
        opaque::server_finished(
            connection.pending[server::challenge_key(request.challenge_id)].state,
            request.credential_finalization,
        ) == Ok::<Option<Seq<u8>>, Seq<char>>(Some(key)),
    ensures
        ({
            let step = server::finish_step(server, connection, header, request, fresh);
            exists|result: AuthResultView|
                step.action == server::ActionView::Reply(
                    replies::reply(
                        header,
                        FrameType::Control,
                        PayloadView::AuthResult(result),
                    ),
                ) && #[trigger] session_of(PayloadView::AuthResult(result), key) == Ok::<
                    AuthSessionView,
                    ErrorView,
                >(AuthSessionView { session_id: fresh, key }) && step.server.sessions[fresh].key
                    == key
        }),
{
    let result = AuthResultView {
        success: true,
        session_id: fresh,
        server_proof: server::login_proof(key, fresh),
        error: Seq::empty(),
    };
    assert(session_of(PayloadView::AuthResult(result), key) == Ok::<AuthSessionView, ErrorView>(
        AuthSessionView { session_id: fresh, key },
    ));
}

/// Whether the closing message of a login opens a session at the server, and
/// the client accepts what the server answers: both then have the same key.
pub open spec fn opens_session(
    server: server::ServerView,
    connection: server::ConnectionView,
    header: FrameHeader,
    request: AuthFinishView,
    fresh: Seq<char>,
    share_id: Seq<char>,
    key: Seq<u8>,
) -> bool {
    let step = server::finish_step(server, connection, header, request, fresh);
    &&& step.connection.active == Some(server::SessionView { key, share_id })
    &&& step.server.sessions.contains_key(fresh)
    &&& step.server.sessions[fresh] == (server::SessionView { key, share_id })
    &&& exists|result: AuthResultView|
        step.action == server::ActionView::Reply(
            replies::reply(header, FrameType::Control, PayloadView::AuthResult(result)),
        ) && #[trigger] session_of(PayloadView::AuthResult(result), key) == Ok::<
            AuthSessionView,
            ErrorView,
        >(AuthSessionView { session_id: fresh, key })
}

/// A client with the password of a share logs in: it answers the challenge,
/// and its answer opens a session that both ends know.
pub proof fn law_login_with_the_password_succeeds(
    server: server::ServerView,
    connection: server::ConnectionView,
    header: FrameHeader,
    share_id: Seq<char>,
    password: Seq<char>,
    record: Seq<u8>,
    client: Seq<u8>,
    request: Seq<u8>,
    challenge: AuthChallengeView,
    fresh: Seq<char>,
)
    requires
        opaque::registered(
            server.keys,
            utf8::encode_utf8(share_id),
            utf8::encode_utf8(password),
            record,
        ),
        opaque::login_started(utf8::encode_utf8(password), client, request),
        connection.pending.contains_key(server::challenge_key(challenge.challenge_id)),
        ({
            let login = connection.pending[server::challenge_key(challenge.challenge_id)];
            &&& login.share_id == share_id
            &&& opaque::keys_agree(
                server.keys,
                record,
                request,
                utf8::encode_utf8(share_id),
                challenge.credential_response,
                login.state,
            )
        }),
    ensures
        match challenge_answer(client, password, PayloadView::AuthChallenge(challenge)) {
            Ok((PayloadView::AuthFinish(finish), key)) => opens_session(
                server,
                connection,
                header,
                finish,
                fresh,
                share_id,
                key,
            ),
            _ => false,
        },
{
    let login = connection.pending[server::challenge_key(challenge.challenge_id)];
    auth::law_session_keys_agree(
        server.keys,
        utf8::encode_utf8(share_id),
        utf8::encode_utf8(password),
        record,
        client,
        request,
        challenge.credential_response,
        login.state,
    );
    if let Ok((PayloadView::AuthFinish(finish), key)) = challenge_answer(
        client,
        password,
        PayloadView::AuthChallenge(challenge),
    ) {
        law_login_result_is_accepted(server, connection, header, finish, fresh, key);
    }
}

/// The session that further connections join.
pub fn session_to_join(session: &Option<AuthSession>) -> (found: Result<AuthSession, LanFlowError>)
    ensures
        match session {
            Some(s) => found matches Ok(f) && f@ == s@,
            None => found matches Err(e) && e@ == ErrorView::Auth("请先输入分享密码"@),
        },
{
    match session {
        Some(session) => Ok(session.clone()),
        None => Err(LanFlowError::Auth("请先输入分享密码".to_owned())),
    }
}

// ---------------------------------------------------------------------------
// Listings
// ---------------------------------------------------------------------------

/// A share as it is shown.
pub open spec fn remote_share(share: ShareInfoView) -> RemoteShareDtoView {
    RemoteShareDtoView { id: share.id, name: share.name, enabled: share.enabled }
}

/// The shares in an answer.
pub fn remote_shares(payload: Payload) -> (shares: Result<Vec<RemoteShareDto>, LanFlowError>)
    ensures
        match payload@ {
            PayloadView::ListSharesResponse(response) => shares matches Ok(list) && fields::views(
                list@,
            ) == response.shares.map_values(|share: ShareInfoView| remote_share(share)),
            _ => shares matches Err(e) && e@ == ErrorView::Protocol("分享列表响应无效"@),
        },
{
    let response = match payload {
        Payload::ListSharesResponse(response) => response,
        _ => {
            return Err(LanFlowError::Protocol("分享列表响应无效".to_owned()));
        },
    };
    let ghost all = response@.shares.map_values(|share: ShareInfoView| remote_share(share));
    let mut list: Vec<RemoteShareDto> = Vec::new();
    let mut i: usize = 0;
    assert(fields::views(list@) =~= all.take(0));
    while i < response.shares.len()
        invariant
            i <= response.shares@.len(),
            all == response@.shares.map_values(|share: ShareInfoView| remote_share(share)),
            fields::views(list@) == all.take(i as int),
        decreases response.shares@.len() - i,
    {
        let share = &response.shares[i];
        let ghost before = list@;
        let shown = RemoteShareDto {
            id: share.id.clone(),
            name: share.name.clone(),
            enabled: share.enabled,
        };
        list.push(shown);
        proof {
            assert(response@.shares[i as int] == share@);
            assert(shown@ =~= all[i as int]);
            assert(fields::views(list@) =~= fields::views(before).push(shown@));
        }
        i += 1;
        assert(fields::views(list@) =~= all.take(i as int));
    }
    assert(all.take(i as int) =~= all);
    Ok(list)
}

/// An entry as it is shown.
pub open spec fn remote_entry(entry: EntryView) -> RemoteEntryDtoView {
    RemoteEntryDtoView {
        id: entry.id,
        name: entry.display_name,
        relative_path: entry.relative_path,
        is_dir: entry.is_dir,
        size: entry.size,
        modified_ms: entry.modified_ms,
    }
}

/// The entries in an answer.
pub fn remote_entries(payload: Payload) -> (entries: Result<Vec<RemoteEntryDto>, LanFlowError>)
    ensures
        match payload@ {
            PayloadView::ListEntriesResponse(response) => entries matches Ok(list) && fields::views(
                list@,
            ) == response.entries.map_values(|entry: EntryView| remote_entry(entry)),
            _ => entries matches Err(e) && e@ == ErrorView::Protocol("目录列表响应无效"@),
        },
{
    let response = match payload {
        Payload::ListEntriesResponse(response) => response,
        _ => {
            return Err(LanFlowError::Protocol("目录列表响应无效".to_owned()));
        },
    };
    let ghost all = response@.entries.map_values(|entry: EntryView| remote_entry(entry));
    let mut list: Vec<RemoteEntryDto> = Vec::new();
    let mut i: usize = 0;
    assert(fields::views(list@) =~= all.take(0));
    while i < response.entries.len()
        invariant
            i <= response.entries@.len(),
            all == response@.entries.map_values(|entry: EntryView| remote_entry(entry)),
            fields::views(list@) == all.take(i as int),
        decreases response.entries@.len() - i,
    {
        let entry = &response.entries[i];
        let ghost before = list@;
        let shown = RemoteEntryDto {
            id: entry.id.clone(),
            name: entry.display_name.clone(),
            relative_path: entry.relative_path.clone(),
            is_dir: entry.is_dir,
            size: entry.size,
            modified_ms: entry.modified_ms,
        };
        list.push(shown);
        proof {
            assert(response@.entries[i as int] == entry@);
            assert(shown@ =~= all[i as int]);
            assert(fields::views(list@) =~= fields::views(before).push(shown@));
        }
        i += 1;
        assert(fields::views(list@) =~= all.take(i as int));
    }
    assert(all.take(i as int) =~= all);
    Ok(list)
}

// ---------------------------------------------------------------------------
// Receiving a snapshot
// ---------------------------------------------------------------------------

/// How long to wait for the next sign of a snapshot, in seconds: a server that
/// reports progress is given less time.
pub fn snapshot_timeout_secs(max_minor: u32) -> (seconds: u64)
    ensures
        seconds == if max_minor >= 1 {
            300u64
        } else {
            1800u64
        },
{
    if max_minor >= 1 {
        300
    } else {
        1800
    }
}

/// The pages of a snapshot that came in so far.
pub struct SnapshotCollector {
    pub snapshot_id: String,
    pub files: Vec<ManifestFile>,
}

/// The model of a [`SnapshotCollector`].
#[verifier::ext_equal]
pub struct CollectorView {
    pub snapshot_id: Seq<char>,
    pub files: Seq<ManifestFileView>,
}

impl View for SnapshotCollector {
    type V = CollectorView;

    open spec fn view(&self) -> CollectorView {
        CollectorView { snapshot_id: self.snapshot_id@, files: fields::views(self.files@) }
    }
}

/// What an answer to the request for a snapshot means.
pub enum CollectorEvent {
    /// A report.
    Progress(SnapshotProgress),
    /// A page; more follow.
    More,
    /// The snapshot is complete.
    Done(SnapshotManifest),
    /// The request failed.
    Failed(LanFlowError),
}

/// The model of a [`CollectorEvent`].
#[verifier::ext_equal]
pub enum CollectorEventView {
    Progress(SnapshotProgressView),
    More,
    Done(SnapshotManifestView),
    Failed(ErrorView),
}

impl View for CollectorEvent {
    type V = CollectorEventView;

    open spec fn view(&self) -> CollectorEventView {
        match self {
            CollectorEvent::Progress(progress) => CollectorEventView::Progress(progress@),
            CollectorEvent::More => CollectorEventView::More,
            CollectorEvent::Done(manifest) => CollectorEventView::Done(manifest@),
            CollectorEvent::Failed(error) => CollectorEventView::Failed(error@),
        }
    }
}

/// What a page leads to.
pub open spec fn page_step(state: CollectorView, page: SnapshotManifestPageView) -> (
    CollectorView,
    CollectorEventView,
) {
    if page.error.len() > 0 {
        (state, CollectorEventView::Failed(ErrorView::Protocol(page.error)))
    } else if state.snapshot_id.len() > 0 && state.snapshot_id != page.snapshot_id {
        (state, CollectorEventView::Failed(ErrorView::Protocol("快照分页 ID 不一致"@)))
    } else {
        let next = CollectorView {
            snapshot_id: page.snapshot_id,
            files: state.files + page.files,
        };
        if page.done {
            (
                next,
                CollectorEventView::Done(
                    SnapshotManifestView {
                        snapshot_id: next.snapshot_id,
                        files: next.files,
                        error: Seq::empty(),
                    },
                ),
            )
        } else {
            (next, CollectorEventView::More)
        }
    }
}

/// What an answer leads to.
pub open spec fn collect_step(state: CollectorView, received: ReceivedView) -> (
    CollectorView,
    CollectorEventView,
) {
    match received {
        ReceivedView::Closed => (
            state,
            CollectorEventView::Failed(ErrorView::Protocol("快照完成前连接关闭"@)),
        ),
        ReceivedView::TimedOut => (
            state,
            CollectorEventView::Failed(ErrorView::Protocol("快照准备长时间没有进度"@)),
        ),
        ReceivedView::Frame(frame) => match message::decoded::<EnvelopeView>(frame.body) {
            None => (state, CollectorEventView::Failed(protocol::decode_failure().lifted())),
            Some(envelope) => match envelope.payload {
                Some(PayloadView::SnapshotProgress(progress)) => (
                    state,
                    CollectorEventView::Progress(progress),
                ),
                Some(PayloadView::SnapshotManifestPage(page)) => page_step(state, page),
                Some(PayloadView::SnapshotManifest(manifest)) => if manifest.error.len() == 0 {
                    (state, CollectorEventView::Done(manifest))
                } else {
                    (state, CollectorEventView::Failed(ErrorView::Protocol(manifest.error)))
                },
                Some(PayloadView::Error(error)) => (
                    state,
                    CollectorEventView::Failed(ErrorView::Protocol(error.message)),
                ),
                _ => (
                    state,
                    CollectorEventView::Failed(ErrorView::Protocol("快照响应无效"@)),
                ),
            },
        },
    }
}

impl SnapshotCollector {
    pub fn new() -> (collector: SnapshotCollector)
        ensures
            collector@ == (CollectorView { snapshot_id: Seq::empty(), files: Seq::empty() }),
    {
        let collector = SnapshotCollector { snapshot_id: String::new(), files: Vec::new() };
        assert(collector@.snapshot_id =~= Seq::empty());
        assert(collector@.files =~= Seq::empty());
        collector
    }

    fn take_page(&mut self, page: SnapshotManifestPage) -> (event: CollectorEvent)
        ensures
            (final(self)@, event@) == page_step(old(self)@, page@),
    {
        let ghost before = self@;
        proof {
            text::lemma_empty_text(page.error@);
            text::lemma_empty_text(self.snapshot_id@);
        }
        if page.error.as_str().as_bytes().len() > 0 {
            return CollectorEvent::Failed(LanFlowError::Protocol(page.error));
        }
        if self.snapshot_id.as_str().as_bytes().len() > 0 && !text::same_text(
            self.snapshot_id.as_str(),
            page.snapshot_id.as_str(),
        ) {
            return CollectorEvent::Failed(
                LanFlowError::Protocol("快照分页 ID 不一致".to_owned()),
            );
        }
        self.snapshot_id = page.snapshot_id;
        let mut files = page.files;
        let ghost added = files@;
        let ghost kept = self.files@;
        self.files.append(&mut files);
        proof {
            assert(self.files@ =~= kept + added);
            assert(self@.files =~= before.files + page@.files);
        }
        if !page.done {
            return CollectorEvent::More;
        }
        let mut copy: Vec<ManifestFile> = Vec::new();
        let ghost all = fields::views(self.files@);
        let mut i: usize = 0;
        assert(fields::views(copy@) =~= all.take(0));
        while i < self.files.len()
            invariant
                i <= self.files@.len(),
                all == fields::views(self.files@),
                fields::views(copy@) == all.take(i as int),
            decreases self.files@.len() - i,
        {
            let ghost copied = copy@;
            let file = self.files[i].clone();
            copy.push(file);
            i += 1;
            assert(fields::views(copy@) =~= fields::views(copied).push(file@));
            assert(fields::views(copy@) =~= all.take(i as int));
        }
        assert(all.take(i as int) =~= all);
        let manifest = SnapshotManifest {
            snapshot_id: self.snapshot_id.clone(),
            files: copy,
            error: String::new(),
        };
        assert(manifest@.error =~= Seq::empty());
        CollectorEvent::Done(manifest)
    }

    /// Takes in an answer to the request for a snapshot.
    pub fn take(&mut self, received: &Received) -> (event: CollectorEvent)
        ensures
            (final(self)@, event@) == collect_step(old(self)@, received@),
    {
        let frame = match received {
            Received::Closed => {
                return CollectorEvent::Failed(
                    LanFlowError::Protocol("快照完成前连接关闭".to_owned()),
                );
            },
            Received::TimedOut => {
                return CollectorEvent::Failed(
                    LanFlowError::Protocol("快照准备长时间没有进度".to_owned()),
                );
            },
            Received::Frame(frame) => frame,
        };
        let envelope = match decode_envelope(frame.body.as_slice()) {
            Ok(envelope) => envelope,
            Err(error) => {
                return CollectorEvent::Failed(LanFlowError::from_protocol(error));
            },
        };
        match envelope.payload {
            Some(Payload::SnapshotProgress(progress)) => CollectorEvent::Progress(progress),
            Some(Payload::SnapshotManifestPage(page)) => self.take_page(page),
            Some(Payload::SnapshotManifest(manifest)) => {
                proof {
                    text::lemma_empty_text(manifest.error@);
                }
                if manifest.error.as_str().as_bytes().len() == 0 {
                    CollectorEvent::Done(manifest)
                } else {
                    CollectorEvent::Failed(LanFlowError::Protocol(manifest.error))
                }
            },
            Some(Payload::Error(error)) => CollectorEvent::Failed(
                LanFlowError::Protocol(error.message),
            ),
            _ => CollectorEvent::Failed(LanFlowError::Protocol("快照响应无效".to_owned())),
        }
    }
}

/// The snapshot that frames add up to, taken in one after the other.
pub open spec fn collected(state: CollectorView, frames: Seq<FrameView>) -> Option<
    SnapshotManifestView,
>
    decreases frames.len(),
{
    if frames.len() == 0 {
        None
    } else {
        match collect_step(state, ReceivedView::Frame(frames[0])) {
            (next, CollectorEventView::Done(manifest)) => Some(manifest),
            (next, CollectorEventView::Failed(_)) => None,
            (next, _) => collected(next, frames.skip(1)),
        }
    }
}

#[verifier::spinoff_prover]
#[verifier::rlimit(60)]
proof fn lemma_collect_pages(
    request: FrameHeader,
    snapshot: SnapshotView,
    state: CollectorView,
    n: int,
)
    requires
        paging::id_len(snapshot.id) + paging::PAGE_MARGIN + paging::PAGE_TARGET <= MAX_FRAME_SIZE,
        paging::snapshot_refusal(snapshot) is None,
        ({
            let pages = paging::paging_of(
                paging::manifests(snapshot),
                paging::id_len(snapshot.id),
            );
            &&& 0 <= n <= pages.full.len()
            &&& state.files == paging::flattened(pages.full.take(n))
            &&& n == 0 ==> state.snapshot_id.len() == 0
            &&& n > 0 ==> state.snapshot_id == snapshot.id
        }),
    ensures
        collected(state, paging::snapshot_frames(request, snapshot).skip(n)) == Some(
            snapshot::manifest_of(snapshot),
        ),
    decreases paging::snapshot_frames(request, snapshot).len() - n,
{
    let pages = paging::paging_of(paging::manifests(snapshot), paging::id_len(snapshot.id));
    let frames = paging::snapshot_frames(request, snapshot);
    let rest = frames.skip(n);
    let done = n == pages.full.len();
    let files = if done {
        pages.open
    } else {
        pages.full[n]
    };
    paging::law_pages_fit(request, snapshot);
    assert(rest[0] == frames[n]);
    assert(frames[n] == paging::page_frame(request, snapshot.id, files, done));
    assert(frames[n].body.len() <= MAX_FRAME_SIZE);
    message::lemma_roundtrip(
        EnvelopeView { payload: Some(paging::page_message(snapshot.id, files, done)) },
    );
    if done {
        paging::law_pages_hold_all_files(
            paging::manifests(snapshot),
            paging::id_len(snapshot.id),
        );
        assert(pages.full.take(n) =~= pages.full);
        assert(snapshot::manifest_of(snapshot).files =~= paging::manifests(snapshot));
    } else {
        assert(pages.full.take(n + 1).drop_last() =~= pages.full.take(n));
        let next = CollectorView { snapshot_id: snapshot.id, files: state.files + files };
        assert(next.files =~= paging::flattened(pages.full.take(n + 1)));
        lemma_collect_pages(request, snapshot, next, n + 1);
        assert(rest.skip(1) =~= frames.skip(n + 1));
    }
}

/// A snapshot that was sent in pages is put together again: the receiver ends
/// with the whole snapshot, whatever its size.
pub proof fn law_pages_are_put_together(request: FrameHeader, snapshot: SnapshotView)
    requires
        paging::id_len(snapshot.id) + paging::PAGE_MARGIN + paging::PAGE_TARGET <= MAX_FRAME_SIZE,
        paging::snapshot_refusal(snapshot) is None,
    ensures
        collected(
            CollectorView { snapshot_id: Seq::empty(), files: Seq::empty() },
            paging::snapshot_frames(request, snapshot),
        ) == Some(snapshot::manifest_of(snapshot)),
{
    let start = CollectorView { snapshot_id: Seq::empty(), files: Seq::empty() };
    let pages = paging::paging_of(paging::manifests(snapshot), paging::id_len(snapshot.id));
    assert(pages.full.take(0) =~= Seq::empty());
    lemma_collect_pages(request, snapshot, start, 0);
    assert(paging::snapshot_frames(request, snapshot).skip(0) =~= paging::snapshot_frames(
        request,
        snapshot,
    ));
}

// ---------------------------------------------------------------------------
// Receiving a chunk
// ---------------------------------------------------------------------------

/// What came in of a chunk so far.
pub struct ChunkDownload {
    hasher: blake3::Hasher,
    received: u64,
}

/// What a frame means for a chunk that is being received.
pub enum ChunkEvent {
    /// The body is to be written at the offset in the header.
    Write,
    /// Nothing is to be done.
    Ignore,
    /// The chunk is complete, with so many bytes.
    Done(u64),
    /// The chunk failed.
    Failed(LanFlowError),
}

/// The model of a [`ChunkEvent`].
#[verifier::ext_equal]
pub enum ChunkEventView {
    Write,
    Ignore,
    Done(u64),
    Failed(ErrorView),
}

impl View for ChunkEvent {
    type V = ChunkEventView;

    open spec fn view(&self) -> ChunkEventView {
        match self {
            ChunkEvent::Write => ChunkEventView::Write,
            ChunkEvent::Ignore => ChunkEventView::Ignore,
            ChunkEvent::Done(n) => ChunkEventView::Done(*n),
            ChunkEvent::Failed(error) => ChunkEventView::Failed(error@),
        }
    }
}

/// What a frame means when `data` came in before it.
pub open spec fn chunk_event(
    data: Seq<u8>,
    file_id: Seq<char>,
    chunk: ChunkHashView,
    frame: FrameView,
) -> ChunkEventView {
    if frame.header.frame_type == FrameType::Data {
        ChunkEventView::Write
    } else {
        match message::decoded::<EnvelopeView>(frame.body) {
            None => ChunkEventView::Failed(protocol::decode_failure().lifted()),
            Some(envelope) => match envelope.payload {
                Some(PayloadView::Error(error)) => ChunkEventView::Failed(
                    ErrorView::Protocol(error.message),
                ),
                payload => if frame.header.frame_type == FrameType::Error {
                    ChunkEventView::Ignore
                } else {
                    match payload {
                        Some(PayloadView::ChunkComplete(complete)) => if complete.chunk_index
                            != chunk.index || complete.file_id != file_id {
                            ChunkEventView::Failed(ErrorView::Protocol("分片完成标记不匹配"@))
                        } else if hash::blake3_digest(data) != chunk.blake3 || data.len()
                            != chunk.length {
                            ChunkEventView::Failed(
                                ErrorView::Protocol("分片 BLAKE3 校验失败"@),
                            )
                        } else {
                            ChunkEventView::Done(chunk.length as u64)
                        },
                        _ => ChunkEventView::Failed(ErrorView::Protocol("分片响应无效"@)),
                    }
                },
            },
        }
    }
}

impl ChunkDownload {
    /// The bytes that came in so far.
    pub closed spec fn data(&self) -> Seq<u8> {
        hash::absorbed(self.hasher)
    }

    pub closed spec fn wf(&self) -> bool {
        self.received == self.data().len()
    }

    pub fn new() -> (download: ChunkDownload)
        ensures
            download.wf(),
            download.data() == Seq::<u8>::empty(),
    {
        ChunkDownload { hasher: hash::new_hasher(), received: 0 }
    }

    /// How many bytes came in so far.
    pub fn received(&self) -> (n: u64)
        requires
            self.wf(),
        ensures
            n == self.data().len(),
    {
        self.received
    }

    /// Takes in an answer to the request for a chunk.
    pub fn take(&mut self, file_id: &str, chunk: &ChunkHash, frame: &Frame) -> (event: ChunkEvent)
        requires
            old(self).wf(),
            old(self).data().len() + frame@.body.len() <= u64::MAX,
        ensures
            final(self).wf(),
            event@ == chunk_event(old(self).data(), file_id@, chunk@, frame@),
            final(self).data() == if frame@.header.frame_type == FrameType::Data {
                old(self).data() + frame@.body
            } else {
                old(self).data()
            },
    {
        if matches!(frame.header.frame_type, FrameType::Data) {
            hash::update(&mut self.hasher, frame.body.as_slice());
            self.received = self.received + frame.body.len() as u64;
            return ChunkEvent::Write;
        }
        let envelope = match decode_envelope(frame.body.as_slice()) {
            Ok(envelope) => envelope,
            Err(error) => {
                return ChunkEvent::Failed(LanFlowError::from_protocol(error));
            },
        };
        let payload = match envelope.payload {
            Some(Payload::Error(error)) => {
                return ChunkEvent::Failed(LanFlowError::Protocol(error.message));
            },
            payload => payload,
        };
        if matches!(frame.header.frame_type, FrameType::Error) {
            return ChunkEvent::Ignore;
        }
        match payload {
            Some(Payload::ChunkComplete(complete)) => {
                if complete.chunk_index != chunk.index || !text::same_text(
                    complete.file_id.as_str(),
                    file_id,
                ) {
                    return ChunkEvent::Failed(
                        LanFlowError::Protocol("分片完成标记不匹配".to_owned()),
                    );
                }
                let digest = hash::finalize(&self.hasher);
                if !text::same_bytes(digest.as_slice(), chunk.blake3.as_slice()) || self.received
                    != chunk.length as u64 {
                    return ChunkEvent::Failed(
                        LanFlowError::Protocol("分片 BLAKE3 校验失败".to_owned()),
                    );
                }
                ChunkEvent::Done(self.received)
            },
            _ => ChunkEvent::Failed(LanFlowError::Protocol("分片响应无效".to_owned())),
        }
    }
}

/// The error for a chunk whose answers end too early.
pub fn chunk_cut_off() -> (error: LanFlowError)
    ensures
        error@ == ErrorView::Protocol("分片传输意外结束"@),
{
    LanFlowError::Protocol("分片传输意外结束".to_owned())
}

/// How many bytes of a chunk came in when the frames that answer the request
/// for it were taken in; `None` if it did not come in whole.
pub open spec fn chunk_outcome(
    data: Seq<u8>,
    file_id: Seq<char>,
    chunk: ChunkHashView,
    frames: Seq<FrameView>,
) -> Option<u64>
    decreases frames.len(),
{
    if frames.len() == 0 {
        None
    } else {
        match chunk_event(data, file_id, chunk, frames[0]) {
            ChunkEventView::Write => chunk_outcome(
                data + frames[0].body,
                file_id,
                chunk,
                frames.skip(1),
            ),
            ChunkEventView::Ignore => chunk_outcome(data, file_id, chunk, frames.skip(1)),
            ChunkEventView::Done(n) => Some(n),
            ChunkEventView::Failed(_) => None,
        }
    }
}

proof fn lemma_chunk_arrives(
    request: FrameHeader,
    file_id: Seq<char>,
    chunk: ChunkHashView,
    blocks: Seq<DataBlock>,
    data: Seq<u8>,
    n: nat,
)
    requires
        replies::covers(blocks, chunk.offset as nat, data.len()),
        data.len() == chunk.length,
        hash::blake3_digest(data) == chunk.blake3,
        replies::reply(
            request,
            FrameType::Control,
            replies::chunk_complete(file_id, chunk),
        ).body.len() <= u64::MAX,
        n <= blocks.len(),
    ensures
        chunk_outcome(
            replies::carried(blocks, data, chunk.offset as nat, n),
            file_id,
            chunk,
            replies::chunk_frames(request, file_id, chunk, blocks, data).skip(n as int),
        ) == Some(chunk.length as u64),
    decreases blocks.len() - n,
{
    let frames = replies::chunk_frames(request, file_id, chunk, blocks, data);
    let rest = frames.skip(n as int);
    assert(rest[0] == frames[n as int]);
    assert(rest.skip(1) =~= frames.skip(n as int + 1));
    if n < blocks.len() {
        lemma_chunk_arrives(request, file_id, chunk, blocks, data, n + 1);
        assert(frames[n as int] == replies::data_reply(
            request,
            blocks[n as int].offset,
            blocks[n as int].sequence,
            replies::block_contents(blocks[n as int], data, chunk.offset as nat),
        ));
    } else {
        replies::law_blocks_carry_all(blocks, data, chunk.offset as nat);
        message::lemma_roundtrip(
            EnvelopeView { payload: Some(replies::chunk_complete(file_id, chunk)) },
        );
    }
}

/// A chunk that is sent arrives: if the file still holds what the snapshot
/// says of the chunk, the client takes in all its bytes, checks them, and
/// finds the chunk complete.
pub proof fn law_chunk_arrives(
    request: FrameHeader,
    file_id: Seq<char>,
    chunk: ChunkHashView,
    blocks: Seq<DataBlock>,
    data: Seq<u8>,
)
    requires
        replies::covers(blocks, chunk.offset as nat, data.len()),
        data.len() == chunk.length,
        hash::blake3_digest(data) == chunk.blake3,
        replies::reply(
            request,
            FrameType::Control,
            replies::chunk_complete(file_id, chunk),
        ).body.len() <= u64::MAX,
    ensures
        chunk_outcome(
            Seq::empty(),
            file_id,
            chunk,
            replies::chunk_frames(request, file_id, chunk, blocks, data),
        ) == Some(chunk.length as u64),
{
    lemma_chunk_arrives(request, file_id, chunk, blocks, data, 0);
    assert(replies::chunk_frames(request, file_id, chunk, blocks, data).skip(0)
        =~= replies::chunk_frames(request, file_id, chunk, blocks, data));
}

/// A file after bytes were written over a stretch of it.
pub open spec fn overwritten(file: Seq<u8>, offset: nat, bytes: Seq<u8>) -> Seq<u8> {
    Seq::new(
        file.len(),
        |i: int|
            if offset <= i < offset + bytes.len() {
                bytes[i - offset]
            } else {
                file[i]
            },
    )
}

/// A file after frames were taken in: the body of each data frame is written
/// at the offset in its header.
pub open spec fn written(file: Seq<u8>, frames: Seq<FrameView>) -> Seq<u8>
    decreases frames.len(),
{
    if frames.len() == 0 {
        file
    } else {
        let before = written(file, frames.drop_last());
        let frame = frames.last();
        if frame.header.frame_type == FrameType::Data {
            overwritten(before, frame.header.file_offset as nat, frame.body)
        } else {
            before
        }
    }
}

proof fn lemma_blocks_written(
    request: FrameHeader,
    file_id: Seq<char>,
    chunk: ChunkHashView,
    blocks: Seq<DataBlock>,
    data: Seq<u8>,
    file: Seq<u8>,
    n: int,
)
    requires
        replies::covers(blocks, chunk.offset as nat, data.len()),
        0 <= n <= blocks.len(),
    ensures
        written(file, replies::chunk_frames(request, file_id, chunk, blocks, data).take(n))
            == overwritten(
            file,
            chunk.offset as nat,
            replies::carried(blocks, data, chunk.offset as nat, n as nat),
        ),
    decreases n,
{
    let frames = replies::chunk_frames(request, file_id, chunk, blocks, data);
    let offset = chunk.offset as nat;
    if n == 0 {
        assert(overwritten(file, offset, Seq::empty()) =~= file);
    } else {
        lemma_blocks_written(request, file_id, chunk, blocks, data, file, n - 1);
        replies::lemma_carried(blocks, data, offset, (n - 1) as nat);
        assert(frames.take(n).drop_last() =~= frames.take(n - 1));
        let block = blocks[n - 1];
        let before = replies::carried(blocks, data, offset, (n - 1) as nat);
        let body = replies::block_contents(block, data, offset);
        assert(frames.take(n).last() == replies::data_reply(
            request,
            block.offset,
            block.sequence,
            body,
        ));
        assert(block.offset == offset + before.len());
        assert(overwritten(overwritten(file, offset, before), block.offset as nat, body)
            =~= overwritten(file, offset, before + body));
    }
}

/// The bytes of a chunk land in their place: what is written while its frames
/// are taken in is the chunk's contents at the chunk's offset, and nothing
/// else of the file changes.
pub proof fn law_chunk_lands_in_its_place(
    request: FrameHeader,
    file_id: Seq<char>,
    chunk: ChunkHashView,
    blocks: Seq<DataBlock>,
    data: Seq<u8>,
    file: Seq<u8>,
)
    requires
        replies::covers(blocks, chunk.offset as nat, data.len()),
    ensures
        written(file, replies::chunk_frames(request, file_id, chunk, blocks, data)) == overwritten(
            file,
            chunk.offset as nat,
            data,
        ),
{
    let frames = replies::chunk_frames(request, file_id, chunk, blocks, data);
    let n = blocks.len() as int;
    lemma_blocks_written(request, file_id, chunk, blocks, data, file, n);
    replies::law_blocks_carry_all(blocks, data, chunk.offset as nat);
    assert(frames.drop_last() =~= frames.take(n));
}

/// A chunk is taken for complete only if what came in has the length and the
/// hash that were promised for it.
pub proof fn law_done_means_verified(
    data: Seq<u8>,
    file_id: Seq<char>,
    chunk: ChunkHashView,
    frame: FrameView,
    n: u64,
)
    requires
        chunk_event(data, file_id, chunk, frame) == ChunkEventView::Done(n),
    ensures
        hash::blake3_digest(data) == chunk.blake3,
        data.len() == chunk.length,
        n == chunk.length,
{
}

/// A chunk is taken for complete only by a message that names this chunk of
/// this file; one that names another is a failure.
pub proof fn law_done_means_this_chunk(
    data: Seq<u8>,
    file_id: Seq<char>,
    chunk: ChunkHashView,
    frame: FrameView,
)
    ensures
        chunk_event(data, file_id, chunk, frame) is Done ==> (message::decoded::<EnvelopeView>(
            frame.body,
        ) matches Some(envelope) && (envelope.payload matches Some(
            PayloadView::ChunkComplete(complete),
        ) && complete.file_id == file_id && complete.chunk_index == chunk.index)),
        frame.header.frame_type == FrameType::Data <==> chunk_event(data, file_id, chunk, frame)
            is Write,
{
}

/// A chunk that the server cannot send fails with what the server says.
pub proof fn law_chunk_errors_are_told(
    request: FrameHeader,
    data: Seq<u8>,
    file_id: Seq<char>,
    chunk: ChunkHashView,
    code: u32,
    reason: Seq<char>,
    retryable: bool,
)
    requires
        replies::error_reply(request, code, reason, retryable).body.len() <= u64::MAX,
    ensures
        chunk_event(
            data,
            file_id,
            chunk,
            replies::error_reply(request, code, reason, retryable),
        ) == ChunkEventView::Failed(ErrorView::Protocol(reason)),
{
    message::lemma_roundtrip(
        EnvelopeView {
            payload: Some(
                PayloadView::Error(
                    crate::wire::transfer::ErrorView { code, message: reason, retryable },
                ),
            ),
        },
    );
}

proof fn lemma_chunk_is_served(
    server: server::ServerView,
    connection: server::ConnectionView,
    header: FrameHeader,
    manifest: SnapshotManifestView,
    i: int,
    k: int,
    source: Seq<u8>,
    chunk_size: nat,
    fresh: Seq<char>,
)
    requires
        connection.active is Some,
        header.major == PROTOCOL_MAJOR,
        header.frame_type == FrameType::Control,
        server.snapshots.contains_key(manifest.snapshot_id),
        snapshot::manifest_of(server.snapshots[manifest.snapshot_id]) == manifest,
        0 <= i < manifest.files.len(),
        forall|j: int| i < j < manifest.files.len() ==> (#[trigger] manifest.files[j]).id
            != manifest.files[i].id,
        snapshot::are_chunks_of(manifest.files[i].chunks, source, chunk_size),
        0 < chunk_size <= u32::MAX,
        manifest.files[i].chunks.len() <= u32::MAX,
        source.len() <= u64::MAX,
        0 <= k < manifest.files[i].chunks.len(),
        message::encoded(
            EnvelopeView {
                payload: Some(
                    PayloadView::ChunkRequest(
                        ChunkRequestView {
                            snapshot_id: manifest.snapshot_id,
                            file_id: manifest.files[i].id,
                            chunk_index: manifest.files[i].chunks[k].index,
                        },
                    ),
                ),
            },
        ).len() <= u64::MAX,
    ensures
        server::frame_step(
            server,
            connection,
            FrameView {
                header,
                body: message::encoded(
                    EnvelopeView {
                        payload: Some(
                            PayloadView::ChunkRequest(
                                ChunkRequestView {
                                    snapshot_id: manifest.snapshot_id,
                                    file_id: manifest.files[i].id,
                                    chunk_index: manifest.files[i].chunks[k].index,
                                },
                            ),
                        ),
                    },
                ),
            },
            fresh,
        ).action == server::ActionView::ServeChunk(
            server::ChunkJobView {
                absolute_path: server.snapshots[manifest.snapshot_id].files[i].absolute_path,
                file_id: manifest.files[i].id,
                chunk: manifest.files[i].chunks[k],
            },
        ),
{
    let snapshot = server.snapshots[manifest.snapshot_id];
    let file = manifest.files[i];
    let request = ChunkRequestView {
        snapshot_id: manifest.snapshot_id,
        file_id: file.id,
        chunk_index: file.chunks[k].index,
    };
    snapshot::law_manifest_tells_every_file(snapshot);
    snapshot::law_chunks_are_cut_at_multiples(file.chunks, source, chunk_size, k);
    assert(manifest.files[i] == snapshot.files[i].manifest);
    assert forall|j: int| i < j < snapshot.files.len() implies (
    #[trigger] snapshot.files[j]).manifest.id != file.id by {
        assert(manifest.files[j] == snapshot.files[j].manifest);
    }
    assert(server::is_file_named(snapshot, i, file.id));
    server::law_frames_carry_messages(
        server,
        connection,
        header,
        PayloadView::ChunkRequest(request),
        fresh,
    );
    server::law_chunks_that_are_there_are_sent(
        server,
        connection,
        header,
        request,
        fresh,
        i,
    );
}

proof fn lemma_chunk_overwritten(
    chunks: Seq<ChunkHashView>,
    k: int,
    source: Seq<u8>,
    chunk_size: nat,
    partial: Seq<u8>,
)
    requires
        snapshot::are_chunks_of(chunks, source, chunk_size),
        0 < chunk_size <= u32::MAX,
        chunks.len() <= u32::MAX,
        source.len() <= u64::MAX,
        partial.len() == source.len(),
        0 <= k < chunks.len(),
    ensures
        overwritten(
            partial,
            chunks[k].offset as nat,
            source.subrange(chunks[k].offset as int, chunks[k].offset + chunks[k].length),
        ) == Seq::new(
            source.len(),
            |p: int|
                if k * chunk_size <= p < k * chunk_size + chunk_size {
                    source[p]
                } else {
                    partial[p]
                },
        ),
{
    snapshot::law_chunks_are_cut_at_multiples(chunks, source, chunk_size, k);
    assert(overwritten(
        partial,
        chunks[k].offset as nat,
        source.subrange(chunks[k].offset as int, chunks[k].offset + chunks[k].length),
    ) =~= Seq::new(
        source.len(),
        |p: int|
            if k * chunk_size <= p < k * chunk_size + chunk_size {
                source[p]
            } else {
                partial[p]
            },
    ));
}

/// A client that asks for a chunk of the snapshot that it was sent gets that
/// chunk. `manifest` is what the client knows of the snapshot, and `k` one of
/// the chunks of its file `i`. The frames that the server sends for the request
/// are found complete as chunk `k` by the client, and put the bytes of the
/// source into the partial file where chunk `k` belongs, and nowhere else.
pub proof fn law_requested_chunk_arrives(
    server: server::ServerView,
    connection: server::ConnectionView,
    header: FrameHeader,
    manifest: SnapshotManifestView,
    i: int,
    k: int,
    source: Seq<u8>,
    chunk_size: nat,
    blocks: Seq<DataBlock>,
    partial: Seq<u8>,
    fresh: Seq<char>,
)
    requires
        connection.active is Some,
        header.major == PROTOCOL_MAJOR,
        header.frame_type == FrameType::Control,
        server.snapshots.contains_key(manifest.snapshot_id),
        snapshot::manifest_of(server.snapshots[manifest.snapshot_id]) == manifest,
        0 <= i < manifest.files.len(),
        forall|j: int| i < j < manifest.files.len() ==> (#[trigger] manifest.files[j]).id
            != manifest.files[i].id,
        snapshot::are_chunks_of(manifest.files[i].chunks, source, chunk_size),
        0 < chunk_size <= u32::MAX,
        manifest.files[i].chunks.len() <= u32::MAX,
        source.len() <= u64::MAX,
        partial.len() == source.len(),
        0 <= k < manifest.files[i].chunks.len(),
        replies::covers(
            blocks,
            manifest.files[i].chunks[k].offset as nat,
            manifest.files[i].chunks[k].length as nat,
        ),
        message::encoded(
            EnvelopeView {
                payload: Some(
                    PayloadView::ChunkRequest(
                        ChunkRequestView {
                            snapshot_id: manifest.snapshot_id,
                            file_id: manifest.files[i].id,
                            chunk_index: manifest.files[i].chunks[k].index,
                        },
                    ),
                ),
            },
        ).len() <= u64::MAX,
        replies::reply(
            header,
            FrameType::Control,
            replies::chunk_complete(manifest.files[i].id, manifest.files[i].chunks[k]),
        ).body.len() <= u64::MAX,
    ensures
        ({
            let file = manifest.files[i];
            let request = FrameView {
                header,
                body: message::encoded(
                    EnvelopeView {
                        payload: Some(
                            PayloadView::ChunkRequest(
                                ChunkRequestView {
                                    snapshot_id: manifest.snapshot_id,
                                    file_id: file.id,
                                    chunk_index: file.chunks[k].index,
                                },
                            ),
                        ),
                    },
                ),
            };
            &&& server::frame_step(server, connection, request, fresh).action
                matches server::ActionView::ServeChunk(job)
            &&& {
                let frames = replies::chunk_frames(
                    header,
                    job.file_id,
                    job.chunk,
                    blocks,
                    source.subrange(job.chunk.offset as int, job.chunk.offset + job.chunk.length),
                );
                &&& chunk_outcome(Seq::empty(), file.id, file.chunks[k], frames) == Some(
                    file.chunks[k].length as u64,
                )
                &&& written(partial, frames) == Seq::new(
                    source.len(),
                    |p: int|
                        if k * chunk_size <= p < k * chunk_size + chunk_size {
                            source[p]
                        } else {
                            partial[p]
                        },
                )
            }
        }),
{
    let file = manifest.files[i];
    let chunk = file.chunks[k];
    lemma_chunk_is_served(
        server,
        connection,
        header,
        manifest,
        i,
        k,
        source,
        chunk_size,
        fresh,
    );
    snapshot::law_chunks_are_cut_at_multiples(file.chunks, source, chunk_size, k);
    let data = source.subrange(chunk.offset as int, chunk.offset + chunk.length);
    law_chunk_arrives(header, file.id, chunk, blocks, data);
    law_chunk_lands_in_its_place(header, file.id, chunk, blocks, data, partial);
    lemma_chunk_overwritten(file.chunks, k, source, chunk_size, partial);
}

/// Of the frames that send a chunk only the last one ends the request.
pub proof fn law_only_last_chunk_frame_is_final(
    request: FrameHeader,
    file_id: Seq<char>,
    chunk: ChunkHashView,
    blocks: Seq<DataBlock>,
    data: Seq<u8>,
    i: int,
)
    requires
        0 <= i < replies::chunk_frames(request, file_id, chunk, blocks, data).len(),
    ensures
        is_final(replies::chunk_frames(request, file_id, chunk, blocks, data)[i].header) <==> i
            == blocks.len(),
{
    assert(0u32 & FLAG_MORE == 0) by (bit_vector);
}

/// Answers end their request, reports and pages before the last one do not.
pub proof fn law_answers_end_requests(
    request: FrameHeader,
    frame_type: FrameType,
    payload: PayloadView,
    progress: snapshot::SnapshotBuildProgressView,
    id: Seq<char>,
    files: Seq<ManifestFileView>,
    done: bool,
)
    requires
        frame_type != FrameType::Data,
    ensures
        is_final(replies::reply(request, frame_type, payload).header),
        !is_final(replies::progress_reply(request, progress).header),
        is_final(paging::page_frame(request, id, files, done).header) <==> done,
{
    assert(0u32 & FLAG_MORE == 0) by (bit_vector);
    assert(FLAG_MORE & FLAG_MORE != 0) by (bit_vector);
}

/// The message of an answer is what the one who asked gets, and a refusal is
/// told in its own words.
pub proof fn law_answers_reach_the_one_who_asked(
    request: FrameHeader,
    frame_type: FrameType,
    payload: PayloadView,
)
    requires
        replies::reply(request, frame_type, payload).body.len() <= u64::MAX,
    ensures
        answer_of(ReceivedView::Frame(replies::reply(request, frame_type, payload)))
            == match payload {
            PayloadView::Error(error) => Err::<PayloadView, ErrorView>(
                ErrorView::Protocol(error.message),
            ),
            _ => Ok::<PayloadView, ErrorView>(payload),
        },
{
    message::lemma_roundtrip(EnvelopeView { payload: Some(payload) });
}

/// A client that speaks another major version is told why it is refused.
pub proof fn law_refused_versions_are_told(
    server: server::ServerView,
    header: FrameHeader,
    hello: HelloView,
)
    requires
        hello.min_major > 1 || hello.max_major < 1,
        replies::reply(
            header,
            FrameType::VersionReject,
            PayloadView::VersionReject(
                VersionRejectView { min_major: 1, max_major: 1, reason: "不支持的协议主版本"@ },
            ),
        ).body.len() <= u64::MAX,
    ensures
        server::greeting_for(server, header, hello) matches server::GreetingView::Rejected(frame, _)
            && hello_of(frame.body) == Err::<HelloView, ErrorView>(
            ErrorView::Protocol("不支持的协议主版本"@),
        ),
{
    message::lemma_roundtrip(
        EnvelopeView {
            payload: Some(
                PayloadView::VersionReject(
                    VersionRejectView {
                        min_major: 1,
                        max_major: 1,
                        reason: "不支持的协议主版本"@,
                    },
                ),
            ),
        },
    );
}

/// A session is accepted only from a server that tells success and proves that
/// it has the key; it is the session that the server named, with that key.
pub proof fn law_servers_prove_their_key(payload: PayloadView, key: Seq<u8>)
    ensures
        match session_of(payload, key) {
            Ok(session) => payload matches PayloadView::AuthResult(result) && result.success
                && result.server_proof == auth::mac_of(
                key,
                seq![
                    utf8::encode_utf8("lanflow-auth-ok"@),
                    utf8::encode_utf8(result.session_id),
                ],
            ) && session.session_id == result.session_id && session.key == key,
            Err(error) => payload matches PayloadView::AuthResult(result) ==> {
                &&& error is Auth
                &&& !result.success ==> error == ErrorView::Auth(result.error)
            },
        },
{
}

/// The challenge that a login is closed with is the one that it was answered
/// with; without a challenge nothing is closed.
pub proof fn law_challenges_are_answered(state: Seq<u8>, password: Seq<char>, payload: PayloadView)
    ensures
        match challenge_answer(state, password, payload) {
            Ok((answer, key)) => payload matches PayloadView::AuthChallenge(challenge) && (answer
                matches PayloadView::AuthFinish(finish) && finish.challenge_id
                == challenge.challenge_id && opaque::client_finished(
                state,
                utf8::encode_utf8(password),
                challenge.credential_response,
            ) == Ok::<Option<(Seq<u8>, Seq<u8>)>, Seq<char>>(
                Some((finish.credential_finalization, key)),
            )),
            Err(error) => error is Protocol <==> !(payload is AuthChallenge),
        },
{
}

/// The shares that a client shows are the open ones of the server, each with
/// its identity and its name.
pub proof fn law_open_shares_are_shown(shares: Seq<ShareDtoView>, i: int)
    requires
        0 <= i < shares.len(),
        shares[i].enabled,
    ensures
        exists|k: int|
            0 <= k < server::visible_shares(shares).len() && {
                let shown = remote_share(#[trigger] server::visible_shares(shares)[k]);
                &&& shown.id == shares[i].id
                &&& shown.name == shares[i].name
                &&& shown.enabled
            },
    decreases shares.len(),
{
    let before = shares.drop_last();
    let rest = server::visible_shares(before);
    let all = server::visible_shares(shares);
    server::law_open_shares_are_listed(before, shares.last());
    assert(before.push(shares.last()) =~= shares);
    if i < before.len() {
        law_open_shares_are_shown(before, i);
        let k = choose|k: int|
            0 <= k < rest.len() && {
                let shown = remote_share(#[trigger] rest[k]);
                &&& shown.id == before[i].id
                &&& shown.name == before[i].name
                &&& shown.enabled
            };
        assert(all[k] == rest[k]);
    } else {
        assert(all[rest.len() as int].id == shares[i].id);
    }
}

/// What a client shows of a directory is what is in the directory of the
/// server: the name, the path, the kind, the size and the time.
pub proof fn law_entries_are_shown_as_they_are(entry: listing::RawEntryView, directory: Seq<char>)
    ensures
        ({
            let shown = remote_entry(listing::shown_entry(entry, directory));
            &&& shown.name == entry.name
            &&& shown.is_dir <==> entry.kind == listing::FileKind::Directory
            &&& entry.kind == listing::FileKind::File ==> shown.size == entry.size
            &&& shown.modified_ms == entry.modified_ms
            &&& shown.relative_path == listing::shown_entry(entry, directory).relative_path
            &&& shown.id == listing::shown_entry(entry, directory).id
        }),
{
}

/// Pages of one snapshot are taken in one after the other, each behind the
/// files that came before; a page of another snapshot, or one that reports an
/// error, is a failure, and what came in before it stays as it was.
pub proof fn law_pages_belong_together(
    state: CollectorView,
    header: FrameHeader,
    page: SnapshotManifestPageView,
)
    requires
        message::encoded(
            EnvelopeView { payload: Some(PayloadView::SnapshotManifestPage(page)) },
        ).len() <= u64::MAX,
    ensures
        ({
            let frame = FrameView {
                header,
                body: message::encoded(
                    EnvelopeView { payload: Some(PayloadView::SnapshotManifestPage(page)) },
                ),
            };
            let (next, event) = collect_step(state, ReceivedView::Frame(frame));
            &&& page.error.len() > 0 ==> next == state && event == CollectorEventView::Failed(
                ErrorView::Protocol(page.error),
            )
            &&& page.error.len() == 0 && state.snapshot_id.len() > 0 && state.snapshot_id
                != page.snapshot_id ==> next == state && event is Failed
            &&& page.error.len() == 0 && (state.snapshot_id.len() == 0 || state.snapshot_id
                == page.snapshot_id) ==> {
                &&& next.snapshot_id == page.snapshot_id
                &&& next.files == state.files + page.files
                &&& event is Done <==> page.done
                &&& event is More <==> !page.done
                &&& event matches CollectorEventView::Done(manifest) ==> manifest.snapshot_id
                    == page.snapshot_id && manifest.files == state.files + page.files
                    && manifest.error.len() == 0
            }
        }),
{
    message::lemma_roundtrip(
        EnvelopeView { payload: Some(PayloadView::SnapshotManifestPage(page)) },
    );
}

/// A snapshot that comes in one piece is taken as it is, unless it reports an
/// error; a report of how far it has come changes nothing.
pub proof fn law_whole_snapshots_are_taken(
    state: CollectorView,
    header: FrameHeader,
    manifest: SnapshotManifestView,
    progress: snapshot::SnapshotBuildProgressView,
)
    requires
        replies::reply(
            header,
            FrameType::Control,
            PayloadView::SnapshotManifest(manifest),
        ).body.len() <= u64::MAX,
        replies::progress_reply(header, progress).body.len() <= u64::MAX,
    ensures
        collect_step(
            state,
            ReceivedView::Frame(
                replies::reply(
                    header,
                    FrameType::Control,
                    PayloadView::SnapshotManifest(manifest),
                ),
            ),
        ) == (
            state,
            if manifest.error.len() == 0 {
                CollectorEventView::Done(manifest)
            } else {
                CollectorEventView::Failed(ErrorView::Protocol(manifest.error))
            },
        ),
        ({
            let (next, event) = collect_step(
                state,
                ReceivedView::Frame(replies::progress_reply(header, progress)),
            );
            &&& next == state
            &&& event matches CollectorEventView::Progress(told) && told.snapshot_id
                == progress.snapshot_id && told.phase == progress.phase && told.prepared_bytes
                == progress.prepared_bytes && told.total_bytes == progress.total_bytes
                && told.scanned_entries == progress.scanned_entries && told.total_entries
                == progress.total_entries && told.cache_hits == progress.cache_hits
                && told.current_path == progress.current_path && told.hash_workers
                == progress.hash_workers && told.speed_bps == progress.speed_bps
        }),
{
    message::lemma_roundtrip(
        EnvelopeView { payload: Some(PayloadView::SnapshotManifest(manifest)) },
    );
    message::lemma_roundtrip(
        EnvelopeView {
            payload: Some(PayloadView::SnapshotProgress(replies::progress_message(progress))),
        },
    );
}

/// The number of the next request differs from that of this one and, until the
/// numbers begin again, is larger; so is that of its stream.
pub proof fn law_requests_get_new_numbers(request: u64, stream: u32)
    ensures
        after_request(request) == request + 1 || (request == u64::MAX && after_request(request)
            == 0),
        after_stream(stream) == stream + 1 || (stream == u32::MAX && after_stream(stream) == 0),
{
}

/// A request that was opened gets the frames that name it, up to the last one,
/// and none after that; one that was given up gets none. Whatever happens to one
/// request, the others wait on.
pub proof fn law_frames_reach_their_request(
    router: RouterView,
    header: FrameHeader,
    later: FrameHeader,
    other: u64,
)
    requires
        !(header.frame_type is Unknown),
        header.request_id == request_started(router).1.0,
        later.request_id == header.request_id,
        other != header.request_id,
    ensures
        ({
            let (opened, (request, stream)) = request_started(router);
            let (heard, delivered) = frame_delivered(opened, header);
            &&& request == router.next_request && stream == router.next_stream
            &&& delivered
            &&& is_final(header) ==> !frame_delivered(heard, later).1
            &&& !is_final(header) ==> heard == opened
            &&& !frame_delivered(request_given_up(opened, request), later).1
            &&& opened.open.contains(other) <==> router.open.contains(other)
            &&& heard.open.contains(other) <==> router.open.contains(other)
            &&& request_given_up(opened, request).open.contains(other) <==> router.open.contains(
                other,
            )
            &&& request_started(opened).1.0 != request
        }),
{
}

/// A frame that names no open request, or is of a kind that this version does
/// not know, reaches nobody and changes nothing.
pub proof fn law_other_frames_reach_nobody(router: RouterView, header: FrameHeader)
    requires
        header.frame_type is Unknown || !router.open.contains(header.request_id),
    ensures
        frame_delivered(router, header) == (router, false),
{
}

/// Every client gets the whole snapshot, whether it takes snapshots in pages or
/// not: what it puts together from the frames that it is sent is the manifest
/// of the snapshot, unless the server reports that it cannot be sent.
pub proof fn law_snapshots_arrive(
    connection: server::ConnectionView,
    header: FrameHeader,
    snapshot: SnapshotView,
)
    requires
        paging::id_len(snapshot.id) + paging::PAGE_MARGIN + paging::PAGE_TARGET <= MAX_FRAME_SIZE,
        message::encoded(
            EnvelopeView {
                payload: Some(PayloadView::SnapshotManifest(snapshot::manifest_of(snapshot))),
            },
        ).len() <= u64::MAX,
    ensures
        server::snapshot_sent(connection, header, snapshot).1 is None ==> collected(
            CollectorView { snapshot_id: Seq::empty(), files: Seq::empty() },
            server::snapshot_sent(connection, header, snapshot).0,
        ) == Some(snapshot::manifest_of(snapshot)),
        !connection.pages ==> server::snapshot_sent(connection, header, snapshot).1 is None,
{
    let start = CollectorView { snapshot_id: Seq::empty(), files: Seq::empty() };
    if connection.pages {
        if paging::snapshot_refusal(snapshot) is None {
            law_pages_are_put_together(header, snapshot);
        }
    } else {
        let frames = server::snapshot_sent(connection, header, snapshot).0;
        message::lemma_roundtrip(
            EnvelopeView {
                payload: Some(PayloadView::SnapshotManifest(snapshot::manifest_of(snapshot))),
            },
        );
        snapshot::law_manifest_tells_every_file(snapshot);
        assert(frames[0] == replies::reply(
            header,
            FrameType::Control,
            PayloadView::SnapshotManifest(snapshot::manifest_of(snapshot)),
        ));
        assert(collect_step(start, ReceivedView::Frame(frames[0])).1 == CollectorEventView::Done(
            snapshot::manifest_of(snapshot),
        ));
    }
}

/// A login goes from the server's challenge to a session of the share that was
/// asked for: the client that has the password reads the challenge, and what it
/// answers opens a session for just that share, which both ends know.
pub proof fn law_challenge_leads_to_a_session(
    server: server::ServerView,
    before: server::ConnectionView,
    after: server::ConnectionView,
    header: FrameHeader,
    next: FrameHeader,
    request: AuthStartView,
    password: Seq<char>,
    record: Seq<u8>,
    client: Seq<u8>,
    frame: FrameView,
    fresh: Seq<char>,
)
    requires
        opaque::registered(
            server.keys,
            utf8::encode_utf8(request.share_id),
            utf8::encode_utf8(password),
            record,
        ),
        opaque::login_started(utf8::encode_utf8(password), client, request.credential_request),
        server::is_challenge(server.keys, before, after, header, request, record, frame),
        frame.body.len() <= u64::MAX,
    ensures
        answer_of(ReceivedView::Frame(frame)) matches Ok(payload) && match challenge_answer(
            client,
            password,
            payload,
        ) {
            Ok((PayloadView::AuthFinish(finish), key)) => opens_session(
                server,
                after,
                next,
                finish,
                fresh,
                request.share_id,
                key,
            ),
            _ => false,
        },
        after.active == before.active,
        after.pages == before.pages,
{
    let (id, response, state) = choose|id: Seq<u8>, response: Seq<u8>, state: Seq<u8>|
        machine::is_random_uuid(id) && #[trigger] opaque::login_answered(
            server.keys,
            record,
            request.credential_request,
            utf8::encode_utf8(request.share_id),
            response,
            state,
        ) && opaque::keys_agree(
            server.keys,
            record,
            request.credential_request,
            utf8::encode_utf8(request.share_id),
            response,
            state,
        ) && after == (server::ConnectionView {
            pending: before.pending.insert(
                #[trigger] server::challenge_key(id),
                server::PendingLoginView { share_id: request.share_id, state },
            ),
            ..before
        }) && frame == replies::reply(
            header,
            FrameType::Control,
            PayloadView::AuthChallenge(
                AuthChallengeView { credential_response: response, challenge_id: id },
            ),
        );
    let challenge = AuthChallengeView { credential_response: response, challenge_id: id };
    law_answers_reach_the_one_who_asked(
        header,
        FrameType::Control,
        PayloadView::AuthChallenge(challenge),
    );
    law_login_with_the_password_succeeds(
        server,
        after,
        next,
        request.share_id,
        password,
        record,
        client,
        request.credential_request,
        challenge,
        fresh,
    );
}

} // verus!
