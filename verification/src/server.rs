//! The serving side of a connection: what is answered to each frame, and what
//! has to be read or written for it.

use vstd::hash_map::StringHashMap;
use vstd::prelude::*;
use vstd::utf8;

use crate::auth;
use crate::auth::{LanFlowServerSetup, ServerPendingLogin};
use crate::error::{ErrorView, IoErrorKind, LanFlowError, ProtocolError, ProtocolErrorView};
use crate::fields;
use crate::frame::{Frame, FrameHeader, FrameType, FrameView};
use crate::message;
use crate::models::{ShareDto, ShareDtoView};
use crate::outside::hash;
use crate::outside::machine;
use crate::outside::opaque;
use crate::paging;
use crate::paths;
use crate::protocol;
use crate::protocol::{
    decode_envelope,
    DEFAULT_CHUNK_SIZE,
    MAX_FRAME_SIZE,
    MAX_SMALL_FILE_BATCH_BYTES,
    MAX_SMALL_FILE_BATCH_COUNT,
    MAX_SMALL_FILE_SIZE,
    PROTOCOL_MAJOR,
    PROTOCOL_MINOR,
    SUPPORTED_FEATURES,
};
use crate::replies;
use crate::replies::{envelope_frame, error_frame, progress_frame};
use crate::snapshot;
use crate::snapshot::{
    SnapshotBuildProgress,
    SnapshotFile,
    SnapshotFileView,
    SnapshotRecord,
    SnapshotView,
};
use crate::text;
use crate::wire::envelope::{EnvelopeView, Payload, PayloadView};
use crate::wire::listing::{
    Entry,
    ListEntriesRequest,
    ListEntriesRequestView,
    ListEntriesResponse,
    ListEntriesResponseView,
    ListSharesResponse,
    ListSharesResponseView,
    ShareInfo,
    ShareInfoView,
};
use crate::wire::session::{
    AuthChallenge,
    AuthChallengeView,
    AuthFinish,
    AuthFinishView,
    AuthResult,
    AuthResultView,
    AuthStart,
    AuthStartView,
    Hello,
    HelloView,
    SessionAttach,
    SessionAttachView,
    VersionReject,
    VersionRejectView,
};
use crate::wire::snapshot::{
    ChunkHash,
    ChunkHashView,
    CreateSnapshotRequest,
    CreateSnapshotRequestView,
    ManifestFileView,
};
use crate::wire::transfer::{
    ChunkRequest,
    ChunkRequestView,
    Pong,
    PongView,
    SmallFileBatchComplete,
    SmallFileBatchCompleteView,
    SmallFileBatchRequest,
    SmallFileBatchRequestView,
};

verus! {

// ---------------------------------------------------------------------------
// What is kept
// ---------------------------------------------------------------------------

/// A client that proved a share's password.
#[derive(Debug)]
pub struct Session {
    pub key: Vec<u8>,
    pub share_id: String,
}

/// The model of a [`Session`].
#[verifier::ext_equal]
pub struct SessionView {
    pub key: Seq<u8>,
    pub share_id: Seq<char>,
}

impl View for Session {
    type V = SessionView;

    open spec fn view(&self) -> SessionView {
        SessionView { key: self.key@, share_id: self.share_id@ }
    }
}

impl Clone for Session {
    fn clone(&self) -> (copy: Session)
        ensures
            copy@ == self@,
    {
        Session {
            key: fields::copy_bytes(self.key.as_slice()),
            share_id: self.share_id.clone(),
        }
    }
}

/// A login that waits for the client's closing message.
pub struct PendingLogin {
    pub share_id: String,
    pub login: ServerPendingLogin,
}

/// The model of a [`PendingLogin`].
#[verifier::ext_equal]
pub struct PendingLoginView {
    pub share_id: Seq<char>,
    pub state: Seq<u8>,
}

impl View for PendingLogin {
    type V = PendingLoginView;

    open spec fn view(&self) -> PendingLoginView {
        PendingLoginView { share_id: self.share_id@, state: self.login.state() }
    }
}

/// What all connections share.
pub struct ServerContext {
    pub setup: LanFlowServerSetup,
    pub device_id: String,
    pub device_name: String,
    pub snapshots: StringHashMap<SnapshotRecord>,
    pub sessions: StringHashMap<Session>,
}

/// The model of a [`ServerContext`].
#[verifier::ext_equal]
pub struct ServerView {
    pub keys: Seq<u8>,
    pub device_id: Seq<char>,
    pub device_name: Seq<char>,
    pub snapshots: Map<Seq<char>, SnapshotView>,
    pub sessions: Map<Seq<char>, SessionView>,
}

impl View for ServerContext {
    type V = ServerView;

    open spec fn view(&self) -> ServerView {
        ServerView {
            keys: self.setup.keys(),
            device_id: self.device_id@,
            device_name: self.device_name@,
            snapshots: self.snapshots@.map_values(|snapshot: SnapshotRecord| snapshot@),
            sessions: self.sessions@.map_values(|session: Session| session@),
        }
    }
}

impl ServerContext {
    /// The index of every snapshot is in order.
    pub open spec fn wf(&self) -> bool {
        forall|id: Seq<char>| #[trigger]
            self.snapshots@.contains_key(id) ==> self.snapshots@[id].wf()
    }

    pub fn new(setup: LanFlowServerSetup, device_id: String, device_name: String) -> (context:
        ServerContext)
        ensures
            context.wf(),
            context@ == (ServerView {
                keys: setup.keys(),
                device_id: device_id@,
                device_name: device_name@,
                snapshots: Map::empty(),
                sessions: Map::empty(),
            }),
    {
        let context = ServerContext {
            setup,
            device_id,
            device_name,
            snapshots: StringHashMap::new(),
            sessions: StringHashMap::new(),
        };
        assert(context@.snapshots =~= Map::empty());
        assert(context@.sessions =~= Map::empty());
        context
    }

    /// Keeps a snapshot under its identity.
    pub fn keep_snapshot(&mut self, snapshot: SnapshotRecord)
        requires
            old(self).wf(),
            snapshot.wf(),
        ensures
            final(self).wf(),
            final(self)@ == (ServerView {
                snapshots: old(self)@.snapshots.insert(snapshot@.id, snapshot@),
                ..old(self)@
            }),
    {
        let ghost before = self@;
        self.snapshots.insert(snapshot.id.clone(), snapshot);
        assert(self@.snapshots =~= before.snapshots.insert(snapshot@.id, snapshot@));
    }
}

/// A connection whose client said hello.
pub struct Connection {
    /// Whether the client takes snapshots in pages.
    pub pages: bool,
    /// Logins that were answered, by the digits of their challenge.
    pub pending: StringHashMap<PendingLogin>,
    pub active: Option<Session>,
}

/// The model of a [`Connection`].
#[verifier::ext_equal]
pub struct ConnectionView {
    pub pages: bool,
    pub pending: Map<Seq<char>, PendingLoginView>,
    pub active: Option<SessionView>,
}

impl View for Connection {
    type V = ConnectionView;

    open spec fn view(&self) -> ConnectionView {
        ConnectionView {
            pages: self.pages,
            pending: self.pending@.map_values(|login: PendingLogin| login@),
            active: match self.active {
                Some(session) => Some(session@),
                None => None,
            },
        }
    }
}

/// The text under which the login with a challenge is kept.
pub open spec fn challenge_key(challenge: Seq<u8>) -> Seq<char> {
    hash::hex(challenge, true)
}

// ---------------------------------------------------------------------------
// Saying hello
// ---------------------------------------------------------------------------

/// How the first frame of a connection is answered.
pub enum Greeting {
    /// Not at all: the connection ends.
    Refused(LanFlowError),
    /// With a frame, and then the connection ends.
    Rejected(Frame, LanFlowError),
    /// With a frame, and the connection goes on.
    Accepted(Frame, Connection),
}

/// The model of a [`Greeting`].
#[verifier::ext_equal]
pub enum GreetingView {
    Refused(ErrorView),
    Rejected(FrameView, ErrorView),
    Accepted(FrameView, ConnectionView),
}

impl View for Greeting {
    type V = GreetingView;

    open spec fn view(&self) -> GreetingView {
        match self {
            Greeting::Refused(error) => GreetingView::Refused(error@),
            Greeting::Rejected(frame, error) => GreetingView::Rejected(frame@, error@),
            Greeting::Accepted(frame, connection) => GreetingView::Accepted(frame@, connection@),
        }
    }
}

/// What this device says of itself.
pub open spec fn own_hello(device_id: Seq<char>, device_name: Seq<char>) -> HelloView {
    HelloView {
        device_id,
        device_name,
        min_major: PROTOCOL_MAJOR as u32,
        max_major: PROTOCOL_MAJOR as u32,
        max_minor: PROTOCOL_MINOR as u32,
        features: SUPPORTED_FEATURES,
        max_frame_size: MAX_FRAME_SIZE as u32,
        max_concurrent_streams: 16,
    }
}

/// The answer to another device's hello.
pub open spec fn greeting_for(
    server: ServerView,
    header: FrameHeader,
    hello: HelloView,
) -> GreetingView {
    if hello.min_major > PROTOCOL_MAJOR || hello.max_major < PROTOCOL_MAJOR {
        GreetingView::Rejected(
            replies::reply(
                header,
                FrameType::VersionReject,
                PayloadView::VersionReject(
                    VersionRejectView {
                        min_major: PROTOCOL_MAJOR as u32,
                        max_major: PROTOCOL_MAJOR as u32,
                        reason: "不支持的协议主版本"@,
                    },
                ),
            ),
            ErrorView::Protocol("协议主版本不兼容"@),
        )
    } else {
        GreetingView::Accepted(
            replies::reply(
                header,
                FrameType::Hello,
                PayloadView::Hello(own_hello(server.device_id, server.device_name)),
            ),
            ConnectionView { pages: hello.max_minor >= 1, pending: Map::empty(), active: None },
        )
    }
}

/// The answer to the first frame of a connection.
pub open spec fn greeting_of(server: ServerView, first: FrameView) -> GreetingView {
    if first.header.frame_type != FrameType::Hello {
        GreetingView::Refused(ErrorView::Protocol("连接首帧必须是 Hello"@))
    } else {
        match message::decoded::<EnvelopeView>(first.body) {
            None => GreetingView::Refused(protocol::decode_failure().lifted()),
            Some(envelope) => match envelope.payload {
                Some(PayloadView::Hello(hello)) => greeting_for(server, first.header, hello),
                _ => GreetingView::Refused(ErrorView::Protocol("Hello 帧正文无效"@)),
            },
        }
    }
}

/// What this device says of itself.
pub fn hello_message(device_id: &str, device_name: &str) -> (hello: Hello)
    ensures
        hello@ == own_hello(device_id@, device_name@),
{
    Hello {
        device_id: device_id.to_owned(),
        device_name: device_name.to_owned(),
        min_major: PROTOCOL_MAJOR as u32,
        max_major: PROTOCOL_MAJOR as u32,
        max_minor: PROTOCOL_MINOR as u32,
        features: SUPPORTED_FEATURES,
        max_frame_size: MAX_FRAME_SIZE as u32,
        max_concurrent_streams: 16,
    }
}

/// Answers the first frame of a connection.
pub fn greet(context: &ServerContext, first: &Frame) -> (greeting: Greeting)
    ensures
        greeting@ == greeting_of(context@, first@),
{
    match first.header.frame_type {
        FrameType::Hello => {},
        _ => {
            return Greeting::Refused(
                LanFlowError::Protocol("连接首帧必须是 Hello".to_owned()),
            );
        },
    }
    let envelope = match decode_envelope(first.body.as_slice()) {
        Ok(envelope) => envelope,
        Err(error) => {
            return Greeting::Refused(LanFlowError::from_protocol(error));
        },
    };
    let hello = match envelope.payload {
        Some(Payload::Hello(hello)) => hello,
        _ => {
            return Greeting::Refused(LanFlowError::Protocol("Hello 帧正文无效".to_owned()));
        },
    };
    if hello.min_major > PROTOCOL_MAJOR as u32 || hello.max_major < PROTOCOL_MAJOR as u32 {
        let reject = VersionReject {
            min_major: PROTOCOL_MAJOR as u32,
            max_major: PROTOCOL_MAJOR as u32,
            reason: "不支持的协议主版本".to_owned(),
        };
        let frame = envelope_frame(
            &first.header,
            FrameType::VersionReject,
            Payload::VersionReject(reject),
        );
        return Greeting::Rejected(
            frame,
            LanFlowError::Protocol("协议主版本不兼容".to_owned()),
        );
    }
    let answer = hello_message(context.device_id.as_str(), context.device_name.as_str());
    let frame = envelope_frame(&first.header, FrameType::Hello, Payload::Hello(answer));
    let connection = Connection {
        pages: hello.max_minor >= 1,
        pending: StringHashMap::new(),
        active: None,
    };
    assert(connection@.pending =~= Map::empty());
    Greeting::Accepted(frame, connection)
}

/// Whether a failed read means that the client went away.
pub fn connection_ended(error: &ProtocolError) -> (ended: bool)
    ensures
        ended == (error@ matches ProtocolErrorView::Io(io) && (io.kind == IoErrorKind::UnexpectedEof
            || io.kind == IoErrorKind::ConnectionReset || io.kind == IoErrorKind::BrokenPipe)),
{
    match error {
        ProtocolError::Io(io) => match io.kind {
            IoErrorKind::UnexpectedEof => true,
            IoErrorKind::ConnectionReset => true,
            IoErrorKind::BrokenPipe => true,
            _ => false,
        },
        ProtocolError::Protocol(_) => false,
    }
}

// ---------------------------------------------------------------------------
// Batches of small files
// ---------------------------------------------------------------------------

/// Whether a file may travel in a batch: it is small, and empty or one chunk.
pub open spec fn is_small_file(file: ManifestFileView) -> bool {
    &&& !file.is_dir
    &&& file.size <= MAX_SMALL_FILE_SIZE
    &&& if file.size == 0 {
        file.chunks.len() == 0
    } else {
        &&& file.chunks.len() == 1
        &&& file.chunks[0].offset == 0
        &&& file.chunks[0].length == file.size
        &&& file.chunks[0].blake3 == file.blake3
    }
}

/// The size of the files of a batch together.
pub open spec fn batch_bytes(files: Seq<SnapshotFileView>) -> nat
    decreases files.len(),
{
    if files.len() == 0 {
        0
    } else {
        batch_bytes(files.drop_last()) + files.last().manifest.size as nat
    }
}

/// The files of a batch and their size together after the first `n`
/// identities, or why the batch is refused there.
pub open spec fn batch_prefix(snapshot: SnapshotView, ids: Seq<Seq<char>>, n: nat) -> Result<
    (Seq<SnapshotFileView>, u64),
    ErrorView,
>
    decreases n,
{
    if n == 0 {
        Ok((Seq::empty(), 0))
    } else {
        match batch_prefix(snapshot, ids, (n - 1) as nat) {
            Err(error) => Err(error),
            Ok((files, total)) => {
                let id = ids[n - 1];
                if ids.take(n - 1).contains(id) {
                    Err(ErrorView::InvalidInput("小文件批次包含重复文件"@))
                } else {
                    match snapshot::file_with(snapshot, id) {
                        None => Err(ErrorView::NotFound("快照文件不存在"@)),
                        Some(file) => if !is_small_file(file.manifest) {
                            Err(ErrorView::InvalidInput("批次包含非小文件或不兼容分片"@))
                        } else if total + file.manifest.size > MAX_SMALL_FILE_BATCH_BYTES {
                            Err(ErrorView::InvalidInput("小文件批次字节数超出上限"@))
                        } else {
                            Ok((files.push(file), (total + file.manifest.size) as u64))
                        },
                    }
                }
            },
        }
    }
}

/// The files of a batch, or why it is refused.
pub open spec fn batch_of(snapshot: SnapshotView, ids: Seq<Seq<char>>) -> Result<
    Seq<SnapshotFileView>,
    ErrorView,
> {
    if ids.len() == 0 || ids.len() > MAX_SMALL_FILE_BATCH_COUNT {
        Err(ErrorView::InvalidInput("小文件批次数量超出上限"@))
    } else {
        match batch_prefix(snapshot, ids, ids.len()) {
            Ok((files, total)) => Ok(files),
            Err(error) => Err(error),
        }
    }
}

proof fn lemma_batch_error(snapshot: SnapshotView, ids: Seq<Seq<char>>, n: nat, m: nat)
    requires
        n <= m,
        batch_prefix(snapshot, ids, n) is Err,
    ensures
        batch_prefix(snapshot, ids, m) == batch_prefix(snapshot, ids, n),
    decreases m,
{
    if n < m {
        lemma_batch_error(snapshot, ids, n, (m - 1) as nat);
    }
}

proof fn lemma_batch_total(snapshot: SnapshotView, ids: Seq<Seq<char>>, n: nat)
    ensures
        batch_prefix(snapshot, ids, n) matches Ok((files, total)) ==> total
            <= MAX_SMALL_FILE_BATCH_BYTES && total == batch_bytes(files) && files.len() == n
            && forall|i: int|
            0 <= i < n ==> is_small_file((#[trigger] files[i]).manifest) && snapshot::file_with(
                snapshot,
                ids[i],
            ) == Some(files[i]),
    decreases n,
{
    if n > 0 {
        lemma_batch_total(snapshot, ids, (n - 1) as nat);
        if let Ok((files, total)) = batch_prefix(snapshot, ids, (n - 1) as nat) {
            let id = ids[n - 1];
            if let Some(file) = snapshot::file_with(snapshot, id) {
                assert(files.push(file).drop_last() =~= files);
            }
        }
    }
}

/// Every file of an accepted batch is a small file of the snapshot, the one
/// that was asked for in its place, and neither their number nor their size
/// together is above its bound.
pub proof fn law_batch_holds_small_files(
    snapshot: SnapshotView,
    ids: Seq<Seq<char>>,
    files: Seq<SnapshotFileView>,
)
    requires
        batch_of(snapshot, ids) == Ok::<Seq<SnapshotFileView>, ErrorView>(files),
    ensures
        files.len() == ids.len(),
        0 < files.len() <= MAX_SMALL_FILE_BATCH_COUNT,
        batch_bytes(files) <= MAX_SMALL_FILE_BATCH_BYTES,
        forall|i: int|
            0 <= i < files.len() ==> is_small_file((#[trigger] files[i]).manifest)
                && snapshot::file_with(snapshot, ids[i]) == Some(files[i]),
{
    lemma_batch_total(snapshot, ids, ids.len());
}

/// A batch that asks for one file twice is refused.
pub proof fn law_batch_refuses_duplicates(
    snapshot: SnapshotView,
    ids: Seq<Seq<char>>,
    i: int,
    j: int,
)
    requires
        0 <= i < j < ids.len(),
        ids[i] == ids[j],
    ensures
        batch_of(snapshot, ids) is Err,
{
    let n = (j + 1) as nat;
    assert(ids.take(j)[i] == ids[j]);
    assert(ids.take(j).contains(ids[j]));
    assert(batch_prefix(snapshot, ids, n) is Err);
    lemma_batch_error(snapshot, ids, n, ids.len());
}

fn small_file(file: &SnapshotFile) -> (ok: bool)
    ensures
        ok == is_small_file(file@.manifest),
{
    let manifest = &file.manifest;
    if manifest.is_dir || manifest.size > MAX_SMALL_FILE_SIZE {
        return false;
    }
    if manifest.size == 0 {
        return manifest.chunks.len() == 0;
    }
    if manifest.chunks.len() != 1 {
        return false;
    }
    let chunk = &manifest.chunks[0];
    assert(file@.manifest.chunks[0] == chunk@);
    chunk.offset == 0 && chunk.length as u64 == manifest.size && text::same_bytes(
        chunk.blake3.as_slice(),
        manifest.blake3.as_slice(),
    )
}

/// The files of a batch. Refused are batches with no file or too many, with a
/// file twice, with files that the snapshot lacks or that are not small, and
/// with too many bytes.
pub fn prepare_small_file_batch(snapshot: &SnapshotRecord, file_ids: &[String]) -> (batch: Result<
    Vec<SnapshotFile>,
    LanFlowError,
>)
    requires
        snapshot.wf(),
    ensures
        match batch_of(snapshot@, fields::views(file_ids@)) {
            Ok(expected) => batch matches Ok(files) && fields::views(files@) == expected,
            Err(error) => batch matches Err(e) && e@ == error,
        },
{
    if file_ids.len() == 0 || file_ids.len() > MAX_SMALL_FILE_BATCH_COUNT {
        return Err(LanFlowError::InvalidInput("小文件批次数量超出上限".to_owned()));
    }
    let ghost ids = fields::views(file_ids@);
    let ghost model = snapshot@;
    let mut seen: StringHashMap<bool> = StringHashMap::new();
    let mut files: Vec<SnapshotFile> = Vec::new();
    let mut total: u64 = 0;
    let mut i: usize = 0;
    assert(fields::views(files@) =~= Seq::empty());
    while i < file_ids.len()
        invariant
            i <= file_ids@.len(),
            0 < ids.len() <= MAX_SMALL_FILE_BATCH_COUNT,
            ids == fields::views(file_ids@),
            model == snapshot@,
            snapshot.wf(),
            forall|id: Seq<char>| #[trigger]
                seen@.contains_key(id) <==> ids.take(i as int).contains(id),
            batch_prefix(model, ids, i as nat) matches Ok((f, t)) && f == fields::views(files@) && t
                == total,
            total <= MAX_SMALL_FILE_BATCH_BYTES,
        decreases file_ids@.len() - i,
    {
        let id = &file_ids[i];
        proof {
            assert(ids[i as int] == id@);
            if batch_prefix(model, ids, (i + 1) as nat) is Err {
                lemma_batch_error(model, ids, (i + 1) as nat, ids.len());
            }
        }
        if seen.contains_key(id.as_str()) {
            return Err(LanFlowError::InvalidInput("小文件批次包含重复文件".to_owned()));
        }
        let ghost known = seen@;
        seen.insert(id.clone(), true);
        proof {
            assert forall|other: Seq<char>| #[trigger]
                seen@.contains_key(other) <==> ids.take(i + 1).contains(other) by {
                assert(ids.take(i + 1) =~= ids.take(i as int).push(id@));
                if ids.take(i as int).contains(other) {
                    let k = ids.take(i as int).index_of(other);
                    assert(ids.take(i + 1)[k] == other);
                }
                if other == id@ {
                    assert(ids.take(i + 1)[i as int] == other);
                }
                if ids.take(i + 1).contains(other) && other != id@ {
                    let k = ids.take(i + 1).index_of(other);
                    assert(ids.take(i as int)[k] == other);
                }
                assert(known.contains_key(other) <==> ids.take(i as int).contains(other));
            }
        }
        let file = match snapshot.find_file(id.as_str()) {
            Some(file) => file.clone(),
            None => {
                return Err(LanFlowError::NotFound("快照文件不存在".to_owned()));
            },
        };
        if !small_file(&file) {
            return Err(
                LanFlowError::InvalidInput("批次包含非小文件或不兼容分片".to_owned()),
            );
        }
        total = total + file.manifest.size;
        if total > MAX_SMALL_FILE_BATCH_BYTES {
            return Err(
                LanFlowError::InvalidInput("小文件批次字节数超出上限".to_owned()),
            );
        }
        let ghost before = files@;
        files.push(file);
        assert(fields::views(files@) =~= fields::views(before).push(file@));
        i += 1;
    }
    Ok(files)
}

proof fn lemma_batch_bytes(files: Seq<SnapshotFileView>, n: int)
    requires
        0 <= n <= files.len(),
    ensures
        batch_bytes(files.take(n)) <= batch_bytes(files),
    decreases files.len() - n,
{
    if n < files.len() {
        lemma_batch_bytes(files, n + 1);
        assert(files.take(n + 1).drop_last() =~= files.take(n));
    } else {
        assert(files.take(n) =~= files);
    }
}

/// The frame that ends a batch: how many files were sent, and their size
/// together.
pub fn batch_complete_frame(header: &FrameHeader, files: &Vec<SnapshotFile>) -> (frame: Frame)
    requires
        files@.len() <= u32::MAX,
        batch_bytes(fields::views(files@)) <= u64::MAX,
    ensures
        frame@ == replies::reply(
            *header,
            FrameType::Control,
            PayloadView::SmallFileBatchComplete(
                SmallFileBatchCompleteView {
                    files_sent: files@.len() as u32,
                    bytes_sent: batch_bytes(fields::views(files@)) as u64,
                },
            ),
        ),
{
    let ghost all = fields::views(files@);
    let mut total: u64 = 0;
    let mut i: usize = 0;
    assert(all.take(0) =~= Seq::empty());
    while i < files.len()
        invariant
            i <= files@.len(),
            all == fields::views(files@),
            total == batch_bytes(all.take(i as int)),
            batch_bytes(all) <= u64::MAX,
        decreases files@.len() - i,
    {
        proof {
            lemma_batch_bytes(all, i + 1);
            assert(all.take(i + 1).drop_last() =~= all.take(i as int));
            assert(all[i as int] == files@[i as int]@);
            assert(all.take(i + 1).last() == all[i as int]);
            assert(batch_bytes(all.take(i + 1)) == batch_bytes(all.take(i as int))
                + files@[i as int]@.manifest.size);
        }
        total = total + files[i].manifest.size;
        i += 1;
    }
    assert(all.take(all.len() as int) =~= all);
    let complete = SmallFileBatchComplete { files_sent: files.len() as u32, bytes_sent: total };
    envelope_frame(header, FrameType::Control, Payload::SmallFileBatchComplete(complete))
}

/// The answer to a batch whose files could not all be sent.
pub fn batch_failed_frame(header: &FrameHeader, error: &LanFlowError) -> (frame: Frame)
    ensures
        frame@ == replies::error_reply(*header, 4006, error@.text(), true),
{
    let reason = error.message();
    error_frame(header, 4006, reason.as_str(), true)
}

/// The answer to a request for a chunk that could not be sent whole.
pub fn chunk_failed_frame(header: &FrameHeader, error: &LanFlowError) -> (frame: Frame)
    ensures
        frame@ == replies::error_reply(*header, 4004, error@.text(), true),
{
    let reason = error.message();
    error_frame(header, 4004, reason.as_str(), true)
}

/// Refuses a file of a batch whose size is no longer the one in the snapshot.
pub fn check_source_size(file: &SnapshotFile, actual: u64) -> (checked: Result<(), LanFlowError>)
    ensures
        actual == file@.manifest.size ==> checked is Ok,
        actual != file@.manifest.size ==> (checked matches Err(e) && e@ == ErrorView::Protocol(
            "源文件在传输期间发生变化: "@ + file@.manifest.relative_path,
        )),
{
    if actual != file.manifest.size {
        return Err(
            LanFlowError::Protocol(
                text::joined(
                    "源文件在传输期间发生变化: ",
                    file.manifest.relative_path.as_str(),
                ),
            ),
        );
    }
    Ok(())
}

/// Refuses a chunk that the file no longer reaches.
pub fn check_chunk_source(actual: u64, chunk: &ChunkHash) -> (checked: Result<(), LanFlowError>)
    ensures
        actual >= snapshot::saturating(chunk.offset, chunk.length as u64) ==> checked is Ok,
        actual < snapshot::saturating(chunk.offset, chunk.length as u64) ==> (checked matches Err(e)
            && e@ == ErrorView::Protocol("源文件在传输期间发生变化"@)),
{
    let end: u64 = if chunk.length as u64 > u64::MAX - chunk.offset {
        u64::MAX
    } else {
        chunk.offset + chunk.length as u64
    };
    if actual < end {
        return Err(LanFlowError::Protocol("源文件在传输期间发生变化".to_owned()));
    }
    Ok(())
}

// ---------------------------------------------------------------------------
// Answering a frame
// ---------------------------------------------------------------------------

/// The session that may use a share, or why there is none.
pub open spec fn session_for(active: Option<SessionView>, share_id: Seq<char>) -> Result<
    SessionView,
    ErrorView,
> {
    match active {
        None => Err(ErrorView::Auth("请先认证"@)),
        Some(session) => if session.share_id != share_id {
            Err(ErrorView::Auth("会话无权访问此分享"@))
        } else {
            Ok(session)
        },
    }
}

/// The session that may use a share.
pub fn require_session(active: &Option<Session>, share_id: &str) -> (session: Result<
    Session,
    LanFlowError,
>)
    ensures
        match session_for(
            match active {
                Some(s) => Some(s@),
                None => None,
            },
            share_id@,
        ) {
            Ok(expected) => session matches Ok(s) && s@ == expected,
            Err(error) => session matches Err(e) && e@ == error,
        },
{
    match active {
        None => Err(LanFlowError::Auth("请先认证".to_owned())),
        Some(session) => if !text::same_text(session.share_id.as_str(), share_id) {
            Err(LanFlowError::Auth("会话无权访问此分享".to_owned()))
        } else {
            Ok(session.clone())
        },
    }
}

/// A chunk that is to be sent.
#[derive(Debug)]
pub struct ChunkJob {
    pub absolute_path: String,
    pub file_id: String,
    pub chunk: ChunkHash,
}

/// The model of a [`ChunkJob`].
#[verifier::ext_equal]
pub struct ChunkJobView {
    pub absolute_path: Seq<char>,
    pub file_id: Seq<char>,
    pub chunk: ChunkHashView,
}

impl View for ChunkJob {
    type V = ChunkJobView;

    open spec fn view(&self) -> ChunkJobView {
        ChunkJobView {
            absolute_path: self.absolute_path@,
            file_id: self.file_id@,
            chunk: self.chunk@,
        }
    }
}

/// What is to be done about a frame.
pub enum Action {
    /// Nothing.
    Ignore,
    /// Send a frame.
    Reply(Frame),
    /// Send a frame and close the connection.
    ReplyAndClose(Frame),
    /// Close the connection with an error.
    Fail(LanFlowError),
    /// Read the shares, and send them.
    ListShares,
    /// Read a share and its password record, and begin a login.
    StartLogin(AuthStart),
    /// Read a directory of the share with the given identity, and send a page.
    ListEntries(String, ListEntriesRequest),
    /// Build a snapshot of the share with the given identity, and send it.
    BuildSnapshot(String, CreateSnapshotRequest),
    /// Send files.
    ServeBatch(Vec<SnapshotFile>),
    /// Send a chunk.
    ServeChunk(ChunkJob),
}

/// The model of an [`Action`].
#[verifier::ext_equal]
pub enum ActionView {
    Ignore,
    Reply(FrameView),
    ReplyAndClose(FrameView),
    Fail(ErrorView),
    ListShares,
    StartLogin(AuthStartView),
    ListEntries(Seq<char>, ListEntriesRequestView),
    BuildSnapshot(Seq<char>, CreateSnapshotRequestView),
    ServeBatch(Seq<SnapshotFileView>),
    ServeChunk(ChunkJobView),
}

impl View for Action {
    type V = ActionView;

    open spec fn view(&self) -> ActionView {
        match self {
            Action::Ignore => ActionView::Ignore,
            Action::Reply(frame) => ActionView::Reply(frame@),
            Action::ReplyAndClose(frame) => ActionView::ReplyAndClose(frame@),
            Action::Fail(error) => ActionView::Fail(error@),
            Action::ListShares => ActionView::ListShares,
            Action::StartLogin(request) => ActionView::StartLogin(request@),
            Action::ListEntries(share_id, request) => ActionView::ListEntries(share_id@, request@),
            Action::BuildSnapshot(share_id, request) => ActionView::BuildSnapshot(
                share_id@,
                request@,
            ),
            Action::ServeBatch(files) => ActionView::ServeBatch(fields::views(files@)),
            Action::ServeChunk(job) => ActionView::ServeChunk(job@),
        }
    }
}

/// What a frame leads to: the state of the server and of the connection after
/// it, and what is to be done.
#[verifier::ext_equal]
pub struct Step {
    pub server: ServerView,
    pub connection: ConnectionView,
    pub action: ActionView,
}

/// The proof of a server that it has the session key.
pub open spec fn login_proof(key: Seq<u8>, session_id: Seq<char>) -> Seq<u8> {
    auth::mac_of(
        key,
        seq![utf8::encode_utf8("lanflow-auth-ok"@), utf8::encode_utf8(session_id)],
    )
}

/// The proof of a client that it has the session key.
pub open spec fn attach_proof(key: Seq<u8>, session_id: Seq<char>, nonce: Seq<u8>) -> Seq<u8> {
    auth::mac_of(
        key,
        seq![utf8::encode_utf8("lanflow-attach"@), utf8::encode_utf8(session_id), nonce],
    )
}

/// What the closing message of a login leads to; `fresh` is the identity of a
/// new session.
pub open spec fn finish_step(
    server: ServerView,
    connection: ConnectionView,
    header: FrameHeader,
    request: AuthFinishView,
    fresh: Seq<char>,
) -> Step {
    let key = challenge_key(request.challenge_id);
    if !connection.pending.contains_key(key) {
        Step {
            server,
            connection,
            action: ActionView::Reply(
                replies::error_reply(header, 2003, "认证挑战已失效"@, true),
            ),
        }
    } else {
        let login = connection.pending[key];
        let left = ConnectionView { pending: connection.pending.remove(key), ..connection };
        match opaque::server_finished(login.state, request.credential_finalization) {
            Ok(Some(session_key)) => {
                let session = SessionView { key: session_key, share_id: login.share_id };
                Step {
                    server: ServerView {
                        sessions: server.sessions.insert(fresh, session),
                        ..server
                    },
                    connection: ConnectionView { active: Some(session), ..left },
                    action: ActionView::Reply(
                        replies::reply(
                            header,
                            FrameType::Control,
                            PayloadView::AuthResult(
                                AuthResultView {
                                    success: true,
                                    session_id: fresh,
                                    server_proof: login_proof(session_key, fresh),
                                    error: Seq::empty(),
                                },
                            ),
                        ),
                    ),
                }
            },
            _ => Step {
                server,
                connection: left,
                action: ActionView::Reply(
                    replies::reply(
                        header,
                        FrameType::Control,
                        PayloadView::AuthResult(
                            AuthResultView {
                                success: false,
                                session_id: Seq::empty(),
                                server_proof: Seq::empty(),
                                error: "密码不正确"@,
                            },
                        ),
                    ),
                ),
            },
        }
    }
}

/// What the request to join a session leads to.
pub open spec fn attach_step(
    server: ServerView,
    connection: ConnectionView,
    header: FrameHeader,
    request: SessionAttachView,
) -> Step {
    if !server.sessions.contains_key(request.session_id) {
        Step {
            server,
            connection,
            action: ActionView::Reply(replies::error_reply(header, 2004, "会话不存在"@, true)),
        }
    } else {
        let session = server.sessions[request.session_id];
        if request.proof != attach_proof(session.key, request.session_id, request.nonce) {
            Step {
                server,
                connection,
                action: ActionView::Fail(ErrorView::Auth("消息认证码无效"@)),
            }
        } else {
            Step {
                server,
                connection: ConnectionView { active: Some(session), ..connection },
                action: ActionView::Reply(
                    replies::reply(
                        header,
                        FrameType::Control,
                        PayloadView::AuthResult(
                            AuthResultView {
                                success: true,
                                session_id: request.session_id,
                                server_proof: Seq::empty(),
                                error: Seq::empty(),
                            },
                        ),
                    ),
                ),
            }
        }
    }
}

/// What is done about the request for a batch.
pub open spec fn batch_action(
    server: ServerView,
    connection: ConnectionView,
    header: FrameHeader,
    request: SmallFileBatchRequestView,
) -> ActionView {
    if connection.active is None {
        ActionView::Fail(ErrorView::Auth("请先认证"@))
    } else if !server.snapshots.contains_key(request.snapshot_id) {
        ActionView::Reply(replies::error_reply(header, 4001, "快照不存在或已过期"@, true))
    } else {
        match batch_of(server.snapshots[request.snapshot_id], request.file_ids) {
            Ok(files) => ActionView::ServeBatch(files),
            Err(error) => ActionView::Reply(
                replies::error_reply(header, 4005, error.text(), false),
            ),
        }
    }
}

/// What is done about the request for a chunk.
pub open spec fn chunk_action(
    server: ServerView,
    connection: ConnectionView,
    header: FrameHeader,
    request: ChunkRequestView,
) -> ActionView {
    if connection.active is None {
        ActionView::Fail(ErrorView::Auth("请先认证"@))
    } else if !server.snapshots.contains_key(request.snapshot_id) {
        ActionView::Reply(replies::error_reply(header, 4001, "快照不存在或已过期"@, true))
    } else {
        match snapshot::file_with(server.snapshots[request.snapshot_id], request.file_id) {
            None => ActionView::Reply(
                replies::error_reply(header, 4002, "快照文件不存在"@, false),
            ),
            Some(file) => if request.chunk_index >= file.manifest.chunks.len() {
                ActionView::Reply(replies::error_reply(header, 4003, "分片不存在"@, false))
            } else {
                ActionView::ServeChunk(
                    ChunkJobView {
                        absolute_path: file.absolute_path,
                        file_id: request.file_id,
                        chunk: file.manifest.chunks[request.chunk_index as int],
                    },
                )
            },
        }
    }
}

/// What a message leads to.
pub open spec fn payload_step(
    server: ServerView,
    connection: ConnectionView,
    header: FrameHeader,
    payload: PayloadView,
    fresh: Seq<char>,
) -> Step {
    match payload {
        PayloadView::AuthFinish(request) => finish_step(
            server,
            connection,
            header,
            request,
            fresh,
        ),
        PayloadView::SessionAttach(request) => attach_step(server, connection, header, request),
        _ => Step {
            server,
            connection,
            action: match payload {
                PayloadView::ListSharesRequest(_) => ActionView::ListShares,
                PayloadView::AuthStart(request) => ActionView::StartLogin(request),
                PayloadView::ListEntriesRequest(request) => match session_for(
                    connection.active,
                    request.share_id,
                ) {
                    Ok(session) => ActionView::ListEntries(session.share_id, request),
                    Err(error) => ActionView::Fail(error),
                },
                PayloadView::CreateSnapshotRequest(request) => match session_for(
                    connection.active,
                    request.share_id,
                ) {
                    Ok(session) => ActionView::BuildSnapshot(session.share_id, request),
                    Err(error) => ActionView::Fail(error),
                },
                PayloadView::SmallFileBatchRequest(request) => batch_action(
                    server,
                    connection,
                    header,
                    request,
                ),
                PayloadView::ChunkRequest(request) => chunk_action(
                    server,
                    connection,
                    header,
                    request,
                ),
                PayloadView::Ping(request) => ActionView::Reply(
                    replies::reply(
                        header,
                        FrameType::Pong,
                        PayloadView::Pong(PongView { timestamp_ms: request.timestamp_ms }),
                    ),
                ),
                PayloadView::Cancel(_) => ActionView::Ignore,
                _ => ActionView::Reply(
                    replies::error_reply(header, 1003, "当前方向不接受此消息"@, false),
                ),
            },
        },
    }
}

/// What a frame leads to.
pub open spec fn frame_step(
    server: ServerView,
    connection: ConnectionView,
    frame: FrameView,
    fresh: Seq<char>,
) -> Step {
    if frame.header.major != PROTOCOL_MAJOR {
        Step {
            server,
            connection,
            action: ActionView::ReplyAndClose(
                replies::error_reply(frame.header, 1001, "连接期间协议版本改变"@, false),
            ),
        }
    } else if frame.header.frame_type is Unknown {
        Step { server, connection, action: ActionView::Ignore }
    } else {
        match message::decoded::<EnvelopeView>(frame.body) {
            None => Step {
                server,
                connection,
                action: ActionView::Fail(protocol::decode_failure().lifted()),
            },
            Some(envelope) => match envelope.payload {
                None => Step {
                    server,
                    connection,
                    action: ActionView::Reply(
                        replies::error_reply(frame.header, 1002, "空控制消息"@, false),
                    ),
                },
                Some(payload) => payload_step(server, connection, frame.header, payload, fresh),
            },
        }
    }
}

fn finish_login(
    context: &mut ServerContext,
    connection: &mut Connection,
    header: &FrameHeader,
    request: &AuthFinish,
    fresh_id: String,
) -> (frame: Frame)
    requires
        old(context).wf(),
    ensures
        final(context).wf(),
        ({
            let step = finish_step(old(context)@, old(connection)@, *header, request@, fresh_id@);
            &&& final(context)@ == step.server
            &&& final(connection)@ == step.connection
            &&& step.action == ActionView::Reply(frame@)
        }),
{
    let ghost server_before = context@;
    let ghost before = connection@;
    let key = hash::encode_upper(request.challenge_id.as_slice());
    let (share_id, login) = match connection.pending.get(key.as_str()) {
        Some(pending) => (pending.share_id.clone(), pending.login.clone()),
        None => {
            return error_frame(header, 2003, "认证挑战已失效", true);
        },
    };
    assert(before.pending[key@] == (PendingLoginView { share_id: share_id@, state: login.state() }));
    connection.pending.remove(key.as_str());
    assert(connection@.pending =~= before.pending.remove(key@));
    match login.finish(request.credential_finalization.as_slice()) {
        Ok(session_key) => {
            let mut parts: Vec<&[u8]> = Vec::new();
            parts.push("lanflow-auth-ok".as_bytes());
            parts.push(fresh_id.as_str().as_bytes());
            let ghost expected = seq![
                utf8::encode_utf8("lanflow-auth-ok"@),
                utf8::encode_utf8(fresh_id@),
            ];
            assert(auth::part_views(parts@) =~= expected);
            let server_proof = match auth::mac(session_key.as_slice(), parts.as_slice()) {
                Ok(tag) => tag,
                Err(_) => Vec::new(),
            };
            let session = Session { key: session_key, share_id };
            let copy = session.clone();
            context.sessions.insert(fresh_id.clone(), copy);
            assert(context@.sessions =~= server_before.sessions.insert(fresh_id@, session@));
            connection.active = Some(session);
            let result = AuthResult {
                success: true,
                session_id: fresh_id,
                server_proof,
                error: String::new(),
            };
            assert(result@.error =~= Seq::empty());
            envelope_frame(header, FrameType::Control, Payload::AuthResult(result))
        },
        Err(_) => {
            let result = AuthResult {
                success: false,
                session_id: String::new(),
                server_proof: Vec::new(),
                error: "密码不正确".to_owned(),
            };
            assert(result@.session_id =~= Seq::empty());
            assert(result@.server_proof =~= Seq::empty());
            envelope_frame(header, FrameType::Control, Payload::AuthResult(result))
        },
    }
}

fn attach_session(
    context: &ServerContext,
    connection: &mut Connection,
    header: &FrameHeader,
    request: SessionAttach,
) -> (action: Action)
    ensures
        ({
            let step = attach_step(context@, old(connection)@, *header, request@);
            &&& step.server == context@
            &&& final(connection)@ == step.connection
            &&& action@ == step.action
        }),
{
    let session = match context.sessions.get(request.session_id.as_str()) {
        Some(session) => session.clone(),
        None => {
            return Action::Reply(error_frame(header, 2004, "会话不存在", true));
        },
    };
    let mut parts: Vec<&[u8]> = Vec::new();
    parts.push("lanflow-attach".as_bytes());
    parts.push(request.session_id.as_str().as_bytes());
    parts.push(request.nonce.as_slice());
    let ghost expected = seq![
        utf8::encode_utf8("lanflow-attach"@),
        utf8::encode_utf8(request.session_id@),
        request.nonce@,
    ];
    assert(auth::part_views(parts@) =~= expected);
    match auth::verify_mac(session.key.as_slice(), parts.as_slice(), request.proof.as_slice()) {
        Ok(_) => {},
        Err(error) => {
            return Action::Fail(error);
        },
    }
    connection.active = Some(session);
    let result = AuthResult {
        success: true,
        session_id: request.session_id,
        server_proof: Vec::new(),
        error: String::new(),
    };
    assert(result@.server_proof =~= Seq::empty());
    assert(result@.error =~= Seq::empty());
    Action::Reply(envelope_frame(header, FrameType::Control, Payload::AuthResult(result)))
}

fn begin_batch(
    context: &ServerContext,
    connection: &Connection,
    header: &FrameHeader,
    request: &SmallFileBatchRequest,
) -> (action: Action)
    requires
        context.wf(),
    ensures
        action@ == batch_action(context@, connection@, *header, request@),
{
    if connection.active.is_none() {
        return Action::Fail(LanFlowError::Auth("请先认证".to_owned()));
    }
    match context.snapshots.get(request.snapshot_id.as_str()) {
        None => Action::Reply(error_frame(header, 4001, "快照不存在或已过期", true)),
        Some(record) => match prepare_small_file_batch(record, request.file_ids.as_slice()) {
            Ok(files) => Action::ServeBatch(files),
            Err(error) => {
                let text = error.message();
                Action::Reply(error_frame(header, 4005, text.as_str(), false))
            },
        },
    }
}

fn begin_chunk(
    context: &ServerContext,
    connection: &Connection,
    header: &FrameHeader,
    request: ChunkRequest,
) -> (action: Action)
    requires
        context.wf(),
    ensures
        action@ == chunk_action(context@, connection@, *header, request@),
{
    if connection.active.is_none() {
        return Action::Fail(LanFlowError::Auth("请先认证".to_owned()));
    }
    let record = match context.snapshots.get(request.snapshot_id.as_str()) {
        Some(record) => record,
        None => {
            return Action::Reply(error_frame(header, 4001, "快照不存在或已过期", true));
        },
    };
    match record.find_file(request.file_id.as_str()) {
        None => Action::Reply(error_frame(header, 4002, "快照文件不存在", false)),
        Some(file) => {
            let count: usize = file.manifest.chunks.len();
            if request.chunk_index as u64 >= count as u64 {
                return Action::Reply(error_frame(header, 4003, "分片不存在", false));
            }
            let chunk = file.manifest.chunks[request.chunk_index as usize].clone();
            let job = ChunkJob {
                absolute_path: file.absolute_path.clone(),
                file_id: request.file_id,
                chunk,
            };
            assert(job@.chunk == file@.manifest.chunks[request.chunk_index as int]);
            Action::ServeChunk(job)
        },
    }
}

/// What is to be done about a frame, when `fresh_id` is the identity of a new
/// session.
pub fn on_frame(
    context: &mut ServerContext,
    connection: &mut Connection,
    frame: &Frame,
    fresh_id: String,
) -> (action: Action)
    requires
        old(context).wf(),
    ensures
        final(context).wf(),
        ({
            let step = frame_step(old(context)@, old(connection)@, frame@, fresh_id@);
            &&& final(context)@ == step.server
            &&& final(connection)@ == step.connection
            &&& action@ == step.action
        }),
{
    let header = &frame.header;
    if header.major != PROTOCOL_MAJOR {
        return Action::ReplyAndClose(error_frame(header, 1001, "连接期间协议版本改变", false));
    }
    if matches!(header.frame_type, FrameType::Unknown(_)) {
        return Action::Ignore;
    }
    let envelope = match decode_envelope(frame.body.as_slice()) {
        Ok(envelope) => envelope,
        Err(error) => {
            return Action::Fail(LanFlowError::from_protocol(error));
        },
    };
    let payload = match envelope.payload {
        Some(payload) => payload,
        None => {
            return Action::Reply(error_frame(header, 1002, "空控制消息", false));
        },
    };
    match payload {
        Payload::ListSharesRequest(_) => Action::ListShares,
        Payload::AuthStart(request) => Action::StartLogin(request),
        Payload::AuthFinish(request) => Action::Reply(
            finish_login(context, connection, header, &request, fresh_id),
        ),
        Payload::SessionAttach(request) => attach_session(context, connection, header, request),
        Payload::ListEntriesRequest(request) => match require_session(
            &connection.active,
            request.share_id.as_str(),
        ) {
            Ok(session) => Action::ListEntries(session.share_id, request),
            Err(error) => Action::Fail(error),
        },
        Payload::CreateSnapshotRequest(request) => match require_session(
            &connection.active,
            request.share_id.as_str(),
        ) {
            Ok(session) => Action::BuildSnapshot(session.share_id, request),
            Err(error) => Action::Fail(error),
        },
        Payload::SmallFileBatchRequest(request) => begin_batch(
            context,
            connection,
            header,
            &request,
        ),
        Payload::ChunkRequest(request) => begin_chunk(context, connection, header, request),
        Payload::Ping(request) => Action::Reply(
            envelope_frame(
                header,
                FrameType::Pong,
                Payload::Pong(Pong { timestamp_ms: request.timestamp_ms }),
            ),
        ),
        Payload::Cancel(_) => Action::Ignore,
        _ => Action::Reply(error_frame(header, 1003, "当前方向不接受此消息", false)),
    }
}

/// What is to be done about a frame. A login that ends well opens a session
/// with an identity that is drawn here.
pub fn handle_frame(context: &mut ServerContext, connection: &mut Connection, frame: &Frame) -> (action:
    Action)
    requires
        old(context).wf(),
    ensures
        final(context).wf(),
        exists|drawn: Seq<u8>|
            machine::is_random_uuid(drawn) && frame_step(
                old(context)@,
                old(connection)@,
                frame@,
                #[trigger] machine::uuid_text(drawn),
            ) == (Step {
                server: final(context)@,
                connection: final(connection)@,
                action: action@,
            }),
{
    let ghost server = context@;
    let ghost before = connection@;
    let bytes = machine::new_uuid();
    let fresh_id = machine::format_uuid(bytes.as_slice());
    let action = on_frame(context, connection, frame, fresh_id);
    assert(frame_step(server, before, frame@, machine::uuid_text(bytes@)) == (Step {
        server: context@,
        connection: connection@,
        action: action@,
    }));
    action
}

// ---------------------------------------------------------------------------
// What is answered once something was read
// ---------------------------------------------------------------------------

/// The shares that clients see: those that are enabled.
pub open spec fn visible_shares(shares: Seq<ShareDtoView>) -> Seq<ShareInfoView>
    decreases shares.len(),
{
    if shares.len() == 0 {
        Seq::empty()
    } else {
        let rest = visible_shares(shares.drop_last());
        let share = shares.last();
        if share.enabled {
            rest.push(ShareInfoView { id: share.id, name: share.name, enabled: share.enabled })
        } else {
            rest
        }
    }
}

/// The frame that lists the shares.
pub fn shares_frame(header: &FrameHeader, shares: &Vec<ShareDto>) -> (frame: Frame)
    ensures
        frame@ == replies::reply(
            *header,
            FrameType::Control,
            PayloadView::ListSharesResponse(
                ListSharesResponseView { shares: visible_shares(fields::views(shares@)) },
            ),
        ),
{
    let ghost all = fields::views(shares@);
    let mut list: Vec<ShareInfo> = Vec::new();
    let mut i: usize = 0;
    assert(fields::views(list@) =~= visible_shares(all.take(0)));
    while i < shares.len()
        invariant
            i <= shares@.len(),
            all == fields::views(shares@),
            fields::views(list@) == visible_shares(all.take(i as int)),
        decreases shares@.len() - i,
    {
        let share = &shares[i];
        proof {
            assert(all.take(i + 1).drop_last() =~= all.take(i as int));
            assert(all.take(i + 1).last() == share@);
        }
        if share.enabled {
            let ghost before = list@;
            let info = ShareInfo {
                id: share.id.clone(),
                name: share.name.clone(),
                enabled: share.enabled,
            };
            list.push(info);
            assert(fields::views(list@) =~= fields::views(before).push(info@));
        }
        i += 1;
    }
    assert(all.take(i as int) =~= all);
    envelope_frame(
        header,
        FrameType::Control,
        Payload::ListSharesResponse(ListSharesResponse { shares: list }),
    )
}

/// What is answered to a login request before the password protocol is asked:
/// the refusal, if there is one. `enabled` is `None` where the share does not
/// exist.
pub open spec fn login_refusal(header: FrameHeader, enabled: Option<bool>) -> Option<FrameView> {
    match enabled {
        None => Some(replies::error_reply(header, 2001, "分享不存在"@, false)),
        Some(false) => Some(replies::error_reply(header, 2002, "分享已停用"@, false)),
        Some(true) => None,
    }
}

/// Answers a login request once the password protocol gave its response. The
/// login is kept under the challenge, which is new.
pub fn challenge_client(
    connection: &mut Connection,
    header: &FrameHeader,
    share_id: String,
    challenge: Vec<u8>,
    response: Vec<u8>,
    login: ServerPendingLogin,
) -> (frame: Frame)
    ensures
        final(connection)@ == (ConnectionView {
            pending: old(connection)@.pending.insert(
                challenge_key(challenge@),
                PendingLoginView { share_id: share_id@, state: login.state() },
            ),
            ..old(connection)@
        }),
        frame@ == replies::reply(
            *header,
            FrameType::Control,
            PayloadView::AuthChallenge(
                AuthChallengeView {
                    credential_response: response@,
                    challenge_id: challenge@,
                },
            ),
        ),
{
    let ghost before = connection@;
    let key = hash::encode_upper(challenge.as_slice());
    let pending = PendingLogin { share_id, login };
    connection.pending.insert(key, pending);
    assert(connection@.pending =~= before.pending.insert(key@, pending@));
    let answer = AuthChallenge { credential_response: response, challenge_id: challenge };
    envelope_frame(header, FrameType::Control, Payload::AuthChallenge(answer))
}

/// Whether an action and a connection are what a login request can lead to
/// when the password protocol gives a response.
pub open spec fn is_challenge(
    keys: Seq<u8>,
    before: ConnectionView,
    after: ConnectionView,
    header: FrameHeader,
    request: AuthStartView,
    record: Seq<u8>,
    frame: FrameView,
) -> bool {
    exists|challenge: Seq<u8>, response: Seq<u8>, state: Seq<u8>|
        machine::is_random_uuid(challenge) && #[trigger] opaque::login_answered(
            keys,
            record,
            request.credential_request,
            utf8::encode_utf8(request.share_id),
            response,
            state,
        ) && opaque::keys_agree(
            keys,
            record,
            request.credential_request,
            utf8::encode_utf8(request.share_id),
            response,
            state,
        ) && after == (ConnectionView {
            pending: before.pending.insert(
                #[trigger] challenge_key(challenge),
                PendingLoginView { share_id: request.share_id, state },
            ),
            ..before
        }) && frame == replies::reply(
            header,
            FrameType::Control,
            PayloadView::AuthChallenge(
                AuthChallengeView { credential_response: response, challenge_id: challenge },
            ),
        )
}

/// Whether a share is enabled, where it exists.
pub open spec fn kept_enabled(share: Option<(bool, Vec<u8>)>) -> Option<bool> {
    match share {
        Some((enabled, record)) => Some(enabled),
        None => None,
    }
}

/// The record of a share's password.
pub open spec fn kept_record(share: Option<(bool, Vec<u8>)>) -> Seq<u8> {
    match share {
        Some((enabled, record)) => record@,
        None => Seq::empty(),
    }
}

/// Answers a login request. `share` is what is kept of the share: whether it
/// is enabled, and the record of its password.
pub fn start_login(
    context: &ServerContext,
    connection: &mut Connection,
    header: &FrameHeader,
    request: AuthStart,
    share: Option<(bool, Vec<u8>)>,
) -> (action: Action)
    ensures
        match login_refusal(*header, kept_enabled(share)) {
            Some(refusal) => action@ == ActionView::Reply(refusal) && final(connection)@ == old(
                connection,
            )@,
            None => match opaque::login_answers(
                context@.keys,
                kept_record(share),
                request@.credential_request,
                utf8::encode_utf8(request@.share_id),
            ) {
                Ok(_) => action@ matches ActionView::Reply(frame) && is_challenge(
                    context@.keys,
                    old(connection)@,
                    final(connection)@,
                    *header,
                    request@,
                    kept_record(share),
                    frame,
                ),
                Err(text) => final(connection)@ == old(connection)@ && action@
                    == ActionView::Fail(ErrorView::Auth(text)),
            },
        },
{
    let (enabled, record) = match share {
        Some(share) => share,
        None => {
            return Action::Reply(error_frame(header, 2001, "分享不存在", false));
        },
    };
    if !enabled {
        return Action::Reply(error_frame(header, 2002, "分享已停用", false));
    }
    let ghost before = connection@;
    match auth::begin_server_login(
        &context.setup,
        request.share_id.as_str(),
        record.as_slice(),
        request.credential_request.as_slice(),
    ) {
        Ok((response, login)) => {
            let ghost answered = response@;
            let ghost state = login.state();
            let challenge = machine::new_uuid();
            let ghost id = challenge@;
            let frame = challenge_client(
                connection,
                header,
                request.share_id,
                challenge,
                response,
                login,
            );
            proof {
                assert(challenge_key(id) == challenge_key(id));
                assert(opaque::login_answered(
                    context@.keys,
                    record@,
                    request@.credential_request,
                    utf8::encode_utf8(request@.share_id),
                    answered,
                    state,
                ));
                assert(is_challenge(
                    context@.keys,
                    before,
                    connection@,
                    *header,
                    request@,
                    record@,
                    frame@,
                ));
            }
            Action::Reply(frame)
        },
        Err(error) => Action::Fail(error),
    }
}

/// The refusal for a share that no longer exists.
pub fn share_gone_frame(header: &FrameHeader) -> (frame: Frame)
    ensures
        frame@ == replies::error_reply(*header, 3001, "分享不存在"@, false),
{
    error_frame(header, 3001, "分享不存在", false)
}

/// How many entries are listed where `requested` were asked for: at least one,
/// at most a thousand.
pub open spec fn page_size(requested: u32) -> nat {
    if requested < 1 {
        1
    } else if requested > 1000 {
        1000
    } else {
        requested as nat
    }
}

/// How many entries are listed where `requested` were asked for.
pub fn listing_limit(requested: u32) -> (limit: usize)
    ensures
        limit == if requested < 1 {
            1
        } else if requested > 1000 {
            1000
        } else {
            requested as int
        },
        limit == page_size(requested),
{
    if requested < 1 {
        1
    } else if requested > 1000 {
        1000
    } else {
        requested as usize
    }
}

/// The offset of the entries that follow a page.
pub open spec fn next_offset(offset: u32, count: u32) -> u32 {
    if offset + count > u32::MAX {
        u32::MAX
    } else {
        (offset + count) as u32
    }
}

/// The frame with a page of a directory.
pub fn listing_frame(header: &FrameHeader, offset: u32, entries: Vec<Entry>, has_more: bool) -> (frame:
    Frame)
    ensures
        frame@ == replies::reply(
            *header,
            FrameType::Control,
            PayloadView::ListEntriesResponse(
                ListEntriesResponseView {
                    entries: fields::views(entries@),
                    has_more,
                    next_offset: next_offset(offset, entries@.len() as u32),
                },
            ),
        ),
{
    let count: u32 = #[verifier::truncate] (entries.len() as u32);
    let next: u32 = if count > u32::MAX - offset {
        u32::MAX
    } else {
        offset + count
    };
    envelope_frame(
        header,
        FrameType::Control,
        Payload::ListEntriesResponse(
            ListEntriesResponse { entries, has_more, next_offset: next },
        ),
    )
}

/// The chunk size of a snapshot where `requested` was asked for; zero leaves
/// the choice open.
pub fn snapshot_chunk_size(requested: u32) -> (size: u32)
    ensures
        size == if requested == 0 {
            DEFAULT_CHUNK_SIZE
        } else {
            requested
        },
{
    if requested == 0 {
        DEFAULT_CHUNK_SIZE
    } else {
        requested
    }
}

/// The frame that reports how far a snapshot has come, to a client that takes
/// such reports: one that takes snapshots in pages.
pub fn progress_frames(
    connection: &Connection,
    header: &FrameHeader,
    progress: SnapshotBuildProgress,
) -> (frame: Option<Frame>)
    ensures
        connection@.pages ==> (frame matches Some(f) && f@ == replies::progress_reply(
            *header,
            progress@,
        )),
        !connection@.pages ==> frame is None,
{
    if connection.pages {
        Some(progress_frame(header, progress))
    } else {
        None
    }
}

/// The frames that send a finished snapshot, and why it cannot be sent whole,
/// if it cannot: in pages where the client takes them, else in one frame.
pub open spec fn snapshot_sent(
    connection: ConnectionView,
    header: FrameHeader,
    snapshot: SnapshotView,
) -> (Seq<FrameView>, Option<ErrorView>) {
    if connection.pages {
        (paging::snapshot_frames(header, snapshot), paging::snapshot_refusal(snapshot))
    } else {
        (
            seq![
                replies::reply(
                    header,
                    FrameType::Control,
                    PayloadView::SnapshotManifest(snapshot::manifest_of(snapshot)),
                ),
            ],
            None,
        )
    }
}

/// The frames that send a finished snapshot: in pages where the client takes
/// them, else in one frame.
pub fn snapshot_frames(connection: &Connection, header: &FrameHeader, record: &SnapshotRecord) -> (sent:
    (Vec<Frame>, Result<(), LanFlowError>))
    requires
        paging::id_len(record@.id) + paging::PAGE_MARGIN <= usize::MAX - 2 * MAX_FRAME_SIZE,
    ensures
        connection@.pages ==> fields::views(sent.0@) == paging::snapshot_frames(*header, record@)
            && match paging::snapshot_refusal(record@) {
            Some(error) => sent.1 matches Err(e) && e@ == error,
            None => sent.1 is Ok,
        },
        !connection@.pages ==> sent.1 is Ok && fields::views(sent.0@) == seq![
            replies::reply(
                *header,
                FrameType::Control,
                PayloadView::SnapshotManifest(snapshot::manifest_of(record@)),
            ),
        ],
        fields::views(sent.0@) == snapshot_sent(connection@, *header, record@).0,
        match snapshot_sent(connection@, *header, record@).1 {
            Some(error) => sent.1 matches Err(e) && e@ == error,
            None => sent.1 is Ok,
        },
{
    if connection.pages {
        paging::send_snapshot_pages(header, record)
    } else {
        let frame = envelope_frame(
            header,
            FrameType::Control,
            Payload::SnapshotManifest(record.wire_manifest()),
        );
        let mut frames: Vec<Frame> = Vec::new();
        frames.push(frame);
        assert(fields::views(frames@) =~= seq![frame@]);
        (frames, Ok(()))
    }
}

// ---------------------------------------------------------------------------
// Laws
// ---------------------------------------------------------------------------

/// A connection that proved no password gets no file, no listing and no
/// snapshot: the requests for them end the connection.
pub proof fn law_no_access_without_session(
    server: ServerView,
    connection: ConnectionView,
    header: FrameHeader,
    payload: PayloadView,
    fresh: Seq<char>,
)
    requires
        connection.active is None,
    ensures
        ({
            let action = payload_step(server, connection, header, payload, fresh).action;
            &&& !(action is ListEntries)
            &&& !(action is BuildSnapshot)
            &&& !(action is ServeBatch)
            &&& !(action is ServeChunk)
            &&& payload is ListEntriesRequest || payload is CreateSnapshotRequest
                || payload is SmallFileBatchRequest || payload is ChunkRequest ==> action
                == ActionView::Fail(ErrorView::Auth("请先认证"@))
        }),
{
}

/// A connection lists and packs only the share whose password it proved.
pub proof fn law_access_only_to_own_share(
    server: ServerView,
    connection: ConnectionView,
    header: FrameHeader,
    payload: PayloadView,
    fresh: Seq<char>,
)
    ensures
        ({
            let action = payload_step(server, connection, header, payload, fresh).action;
            &&& action matches ActionView::ListEntries(share_id, request) ==> (connection.active
                matches Some(session) && session.share_id == share_id && request.share_id
                == share_id)
            &&& action matches ActionView::BuildSnapshot(share_id, request) ==> (connection.active
                matches Some(session) && session.share_id == share_id && request.share_id
                == share_id)
        }),
{
}

/// The session that a message opens: that of a login that ends well, or the
/// one whose key the client has.
pub open spec fn opened_session(
    server: ServerView,
    connection: ConnectionView,
    payload: PayloadView,
) -> Option<SessionView> {
    match payload {
        PayloadView::AuthFinish(request) => {
            let key = challenge_key(request.challenge_id);
            if connection.pending.contains_key(key) {
                match opaque::server_finished(
                    connection.pending[key].state,
                    request.credential_finalization,
                ) {
                    Ok(Some(session_key)) => Some(
                        SessionView {
                            key: session_key,
                            share_id: connection.pending[key].share_id,
                        },
                    ),
                    _ => None,
                }
            } else {
                None
            }
        },
        PayloadView::SessionAttach(request) => if server.sessions.contains_key(request.session_id)
            && request.proof == attach_proof(
            server.sessions[request.session_id].key,
            request.session_id,
            request.nonce,
        ) {
            Some(server.sessions[request.session_id])
        } else {
            None
        },
        _ => None,
    }
}

/// A connection comes to a session only by a login that ends well or by the
/// proof that it has the key of a session.
pub proof fn law_session_needs_proof(
    server: ServerView,
    connection: ConnectionView,
    header: FrameHeader,
    payload: PayloadView,
    fresh: Seq<char>,
)
    ensures
        payload_step(server, connection, header, payload, fresh).connection.active
            == match opened_session(server, connection, payload) {
            Some(session) => Some(session),
            None => connection.active,
        },
{
}

/// Every answer names the stream and the request it belongs to.
pub proof fn law_answers_name_their_request(
    server: ServerView,
    connection: ConnectionView,
    frame: FrameView,
    fresh: Seq<char>,
)
    ensures
        match frame_step(server, connection, frame, fresh).action {
            ActionView::Reply(answer) => answer.header.stream_id == frame.header.stream_id
                && answer.header.request_id == frame.header.request_id,
            ActionView::ReplyAndClose(answer) => answer.header.stream_id == frame.header.stream_id
                && answer.header.request_id == frame.header.request_id,
            _ => true,
        },
{
}

/// Logins with different challenges are kept apart.
pub proof fn law_challenges_are_kept_apart(one: Seq<u8>, other: Seq<u8>)
    requires
        challenge_key(one) == challenge_key(other),
    ensures
        one == other,
{
    paths::lemma_hex_injective(one, other, true);
}

/// A challenge serves for one login: once it was answered it is gone.
pub proof fn law_challenge_is_used_once(
    server: ServerView,
    connection: ConnectionView,
    header: FrameHeader,
    request: AuthFinishView,
    fresh: Seq<char>,
)
    ensures
        !payload_step(
            server,
            connection,
            header,
            PayloadView::AuthFinish(request),
            fresh,
        ).connection.pending.contains_key(challenge_key(request.challenge_id)),
{
}

/// Whether a file of a snapshot is the one with its identity: no later file
/// has the same.
pub open spec fn is_file_named(snapshot: SnapshotView, i: int, id: Seq<char>) -> bool {
    &&& 0 <= i < snapshot.files.len()
    &&& snapshot.files[i].manifest.id == id
    &&& forall|j: int|
        i < j < snapshot.files.len() ==> (#[trigger] snapshot.files[j]).manifest.id != id
}

proof fn lemma_named_file(snapshot: SnapshotView, id: Seq<char>)
    ensures
        snapshot::file_with(snapshot, id) matches Some(file) ==> exists|i: int|
            #[trigger] is_file_named(snapshot, i, id) && snapshot.files[i] == file,
{
    snapshot::law_files_are_found_by_identity(snapshot, id, 0);
    if let Some(file) = snapshot::file_with(snapshot, id) {
        let first = snapshot.files.index_of(file);
        let i = lemma_named_from(snapshot, id, first);
        snapshot::law_files_are_found_by_identity(snapshot, id, i);
        assert(is_file_named(snapshot, i, id));
    }
}

proof fn lemma_named_from(snapshot: SnapshotView, id: Seq<char>, first: int) -> (i: int)
    requires
        0 <= first < snapshot.files.len(),
        snapshot.files[first].manifest.id == id,
    ensures
        is_file_named(snapshot, i, id),
    decreases snapshot.files.len() - first,
{
    if exists|j: int|
        first < j < snapshot.files.len() && (#[trigger] snapshot.files[j]).manifest.id == id {
        let j = choose|j: int|
            first < j < snapshot.files.len() && (#[trigger] snapshot.files[j]).manifest.id == id;
        lemma_named_from(snapshot, id, j)
    } else {
        first
    }
}

/// The chunk that is sent is the one that was asked for: of the file with the
/// identity in the request, in the snapshot in the request, the chunk at the
/// position in the request. It is read where that file lies, and sent under
/// its identity.
pub proof fn law_chunk_sent_is_the_one_asked_for(
    server: ServerView,
    connection: ConnectionView,
    header: FrameHeader,
    request: ChunkRequestView,
    fresh: Seq<char>,
    job: ChunkJobView,
)
    requires
        payload_step(
            server,
            connection,
            header,
            PayloadView::ChunkRequest(request),
            fresh,
        ).action == ActionView::ServeChunk(job),
    ensures
        connection.active is Some,
        server.snapshots.contains_key(request.snapshot_id),
        job.file_id == request.file_id,
        exists|i: int| #[trigger]
            is_file_named(server.snapshots[request.snapshot_id], i, request.file_id) && {
                let file = server.snapshots[request.snapshot_id].files[i];
                &&& request.chunk_index < file.manifest.chunks.len()
                &&& job.chunk == file.manifest.chunks[request.chunk_index as int]
                &&& job.absolute_path == file.absolute_path
            },
{
    lemma_named_file(server.snapshots[request.snapshot_id], request.file_id);
}

/// Of a file that was read in chunks of a size, the chunk that is sent has the
/// number that was asked for and begins that many chunks into the file.
pub proof fn law_chunk_sent_lies_where_asked_for(
    server: ServerView,
    connection: ConnectionView,
    header: FrameHeader,
    request: ChunkRequestView,
    fresh: Seq<char>,
    job: ChunkJobView,
    i: int,
    data: Seq<u8>,
    chunk_size: nat,
)
    requires
        payload_step(
            server,
            connection,
            header,
            PayloadView::ChunkRequest(request),
            fresh,
        ).action == ActionView::ServeChunk(job),
        is_file_named(server.snapshots[request.snapshot_id], i, request.file_id),
        snapshot::are_chunks_of(
            server.snapshots[request.snapshot_id].files[i].manifest.chunks,
            data,
            chunk_size,
        ),
        0 < chunk_size <= u32::MAX,
        server.snapshots[request.snapshot_id].files[i].manifest.chunks.len() <= u32::MAX,
        data.len() <= u64::MAX,
    ensures
        job.chunk.index == request.chunk_index,
        job.chunk.offset == request.chunk_index * chunk_size,
        job.chunk.blake3 == hash::blake3_digest(
            data.subrange(job.chunk.offset as int, job.chunk.offset + job.chunk.length),
        ),
{
    let snapshot = server.snapshots[request.snapshot_id];
    snapshot::law_files_are_found_by_identity(snapshot, request.file_id, i);
    snapshot::law_chunks_are_cut_at_multiples(
        snapshot.files[i].manifest.chunks,
        data,
        chunk_size,
        request.chunk_index as int,
    );
}

/// A connection with a session gets every chunk that is there: a request that
/// names a kept snapshot, a file of it and the position of one of its chunks
/// is never refused. One that names something else is told which of these is
/// missing.
pub proof fn law_chunks_that_are_there_are_sent(
    server: ServerView,
    connection: ConnectionView,
    header: FrameHeader,
    request: ChunkRequestView,
    fresh: Seq<char>,
    i: int,
)
    requires
        connection.active is Some,
    ensures
        ({
            let step = payload_step(
                server,
                connection,
                header,
                PayloadView::ChunkRequest(request),
                fresh,
            );
            let known = server.snapshots.contains_key(request.snapshot_id);
            let snapshot = server.snapshots[request.snapshot_id];
            &&& step.server == server
            &&& step.connection == connection
            &&& !known ==> step.action == ActionView::Reply(
                replies::error_reply(header, 4001, "快照不存在或已过期"@, true),
            )
            &&& known && (forall|j: int|
                0 <= j < snapshot.files.len() ==> (#[trigger] snapshot.files[j]).manifest.id
                    != request.file_id) ==> step.action == ActionView::Reply(
                replies::error_reply(header, 4002, "快照文件不存在"@, false),
            )
            &&& known && is_file_named(snapshot, i, request.file_id) ==> step.action == if (
            request.chunk_index as int) < snapshot.files[i].manifest.chunks.len() {
                ActionView::ServeChunk(
                    ChunkJobView {
                        absolute_path: snapshot.files[i].absolute_path,
                        file_id: request.file_id,
                        chunk: snapshot.files[i].manifest.chunks[request.chunk_index as int],
                    },
                )
            } else {
                ActionView::Reply(replies::error_reply(header, 4003, "分片不存在"@, false))
            }
        }),
{
    snapshot::law_files_are_found_by_identity(
        server.snapshots[request.snapshot_id],
        request.file_id,
        i,
    );
}

proof fn lemma_batch_accepted(
    snapshot: SnapshotView,
    ids: Seq<Seq<char>>,
    files: Seq<SnapshotFileView>,
    n: nat,
)
    requires
        n <= ids.len(),
        files.len() == ids.len(),
        forall|i: int, j: int| 0 <= i < j < ids.len() ==> ids[i] != ids[j],
        forall|i: int|
            0 <= i < files.len() ==> is_small_file((#[trigger] files[i]).manifest)
                && snapshot::file_with(snapshot, ids[i]) == Some(files[i]),
        batch_bytes(files) <= MAX_SMALL_FILE_BATCH_BYTES,
    ensures
        batch_prefix(snapshot, ids, n) == Ok::<(Seq<SnapshotFileView>, u64), ErrorView>(
            (files.take(n as int), batch_bytes(files.take(n as int)) as u64),
        ),
    decreases n,
{
    if n > 0 {
        lemma_batch_accepted(snapshot, ids, files, (n - 1) as nat);
        let id = ids[n - 1];
        if ids.take(n - 1).contains(id) {
            let k = ids.take(n - 1).index_of(id);
            assert(ids[k] == id);
        }
        assert(is_small_file(files[n - 1].manifest));
        assert(files.take(n as int).drop_last() =~= files.take(n - 1));
        assert(files.take(n as int).last() == files[n - 1]);
        assert(files.take(n - 1).push(files[n - 1]) =~= files.take(n as int));
        lemma_batch_bytes(files, n as int);
        lemma_batch_bytes(files, n - 1);
    } else {
        assert(files.take(0) =~= Seq::empty());
    }
}

/// A batch of files that are in the snapshot, each asked for once, none larger
/// than 256 kibibytes and each whole in one chunk, is sent as it was asked for,
/// as long as there are at most 256 of them with at most four mebibytes
/// together.
pub proof fn law_batch_of_small_files_is_sent(
    server: ServerView,
    connection: ConnectionView,
    header: FrameHeader,
    request: SmallFileBatchRequestView,
    fresh: Seq<char>,
    files: Seq<SnapshotFileView>,
)
    requires
        connection.active is Some,
        server.snapshots.contains_key(request.snapshot_id),
        0 < request.file_ids.len() <= 256,
        files.len() == request.file_ids.len(),
        forall|i: int, j: int|
            0 <= i < j < request.file_ids.len() ==> request.file_ids[i] != request.file_ids[j],
        forall|i: int|
            0 <= i < files.len() ==> snapshot::file_with(
                server.snapshots[request.snapshot_id],
                #[trigger] request.file_ids[i],
            ) == Some(files[i]),
        forall|i: int|
            0 <= i < files.len() ==> {
                let file = (#[trigger] files[i]).manifest;
                &&& !file.is_dir
                &&& file.size <= 256 * 1024
                &&& file.size == 0 ==> file.chunks.len() == 0
                &&& file.size > 0 ==> file.chunks.len() == 1 && file.chunks[0].offset == 0
                    && file.chunks[0].length == file.size && file.chunks[0].blake3 == file.blake3
            },
        batch_bytes(files) <= 4 * 1024 * 1024,
    ensures
        payload_step(
            server,
            connection,
            header,
            PayloadView::SmallFileBatchRequest(request),
            fresh,
        ).action == ActionView::ServeBatch(files),
{
    let ids = request.file_ids;
    assert forall|i: int| 0 <= i < files.len() implies is_small_file((#[trigger] files[i]).manifest)
        && snapshot::file_with(server.snapshots[request.snapshot_id], ids[i]) == Some(
        files[i],
    ) by {
        assert(snapshot::file_with(server.snapshots[request.snapshot_id], ids[i]) == Some(files[i]));
    }
    lemma_batch_accepted(server.snapshots[request.snapshot_id], ids, files, ids.len());
    assert(files.take(ids.len() as int) =~= files);
}

/// The files of a batch that is sent are those of the snapshot in the request
/// with the identities in the request, in this order; each is small, and whole
/// in one chunk where it is not empty.
pub proof fn law_batch_sent_is_the_one_asked_for(
    server: ServerView,
    connection: ConnectionView,
    header: FrameHeader,
    request: SmallFileBatchRequestView,
    fresh: Seq<char>,
    files: Seq<SnapshotFileView>,
)
    requires
        payload_step(
            server,
            connection,
            header,
            PayloadView::SmallFileBatchRequest(request),
            fresh,
        ).action == ActionView::ServeBatch(files),
    ensures
        connection.active is Some,
        server.snapshots.contains_key(request.snapshot_id),
        0 < files.len() <= 256,
        files.len() == request.file_ids.len(),
        batch_bytes(files) <= 4 * 1024 * 1024,
        forall|i: int|
            0 <= i < files.len() ==> {
                let file = (#[trigger] files[i]).manifest;
                &&& server.snapshots[request.snapshot_id].files.contains(files[i])
                &&& file.id == request.file_ids[i]
                &&& !file.is_dir
                &&& file.size <= 256 * 1024
                &&& file.size == 0 ==> file.chunks.len() == 0
                &&& file.size > 0 ==> file.chunks.len() == 1 && file.chunks[0].offset == 0
                    && file.chunks[0].length == file.size && file.chunks[0].blake3 == file.blake3
            },
        forall|i: int, j: int|
            0 <= i < j < files.len() ==> request.file_ids[i] != request.file_ids[j],
{
    let snapshot = server.snapshots[request.snapshot_id];
    let ids = request.file_ids;
    law_batch_holds_small_files(snapshot, ids, files);
    assert forall|i: int| 0 <= i < files.len() implies snapshot.files.contains(#[trigger] files[i])
        && files[i].manifest.id == ids[i] by {
        assert(is_small_file(files[i].manifest));
        snapshot::law_files_are_found_by_identity(snapshot, ids[i], 0);
    }
    assert forall|i: int, j: int| 0 <= i < j < files.len() implies ids[i] != ids[j] by {
        if ids[i] == ids[j] {
            law_batch_refuses_duplicates(snapshot, ids, i, j);
        }
    }
}

/// The size of a batch is the sum of the sizes of its files.
pub proof fn law_batch_sizes_add_up(files: Seq<SnapshotFileView>, file: SnapshotFileView)
    ensures
        batch_bytes(Seq::empty()) == 0,
        batch_bytes(files.push(file)) == batch_bytes(files) + file.manifest.size,
{
    assert(files.push(file).drop_last() =~= files);
}

/// Clients see the shares that are open, each under its identity and its name,
/// in their order, and no others.
pub proof fn law_open_shares_are_listed(shares: Seq<ShareDtoView>, share: ShareDtoView)
    ensures
        visible_shares(Seq::empty()).len() == 0,
        visible_shares(shares.push(share)) == if share.enabled {
            visible_shares(shares).push(
                ShareInfoView { id: share.id, name: share.name, enabled: true },
            )
        } else {
            visible_shares(shares)
        },
{
    assert(shares.push(share).drop_last() =~= shares);
}

/// A client is greeted exactly where it speaks the major version of this
/// device among others; it gets snapshots in pages where it knows a minor
/// version that has them, and begins without a session. Any other client is
/// told the version that is spoken here, and the connection ends.
pub proof fn law_versions_decide_the_greeting(
    server: ServerView,
    header: FrameHeader,
    hello: HelloView,
)
    requires
        message::encoded(EnvelopeView { payload: Some(PayloadView::Hello(hello)) }).len()
            <= u64::MAX,
        header.frame_type == FrameType::Hello,
    ensures
        match greeting_of(
            server,
            FrameView {
                header,
                body: message::encoded(EnvelopeView { payload: Some(PayloadView::Hello(hello)) }),
            },
        ) {
            GreetingView::Accepted(frame, connection) => {
                &&& hello.min_major <= 1 <= hello.max_major
                &&& connection.pages == (hello.max_minor >= 1)
                &&& connection.active is None
                &&& forall|key: Seq<char>| !connection.pending.contains_key(key)
                &&& frame.header.request_id == header.request_id
            },
            GreetingView::Rejected(frame, error) => {
                &&& !(hello.min_major <= 1 <= hello.max_major)
                &&& frame.header.request_id == header.request_id
                &&& error is Protocol
            },
            GreetingView::Refused(_) => false,
        },
{
    message::lemma_roundtrip(EnvelopeView { payload: Some(PayloadView::Hello(hello)) });
}

/// A connection whose first frame is no hello ends without an answer.
pub proof fn law_connections_begin_with_hello(server: ServerView, first: FrameView)
    requires
        first.header.frame_type != FrameType::Hello,
    ensures
        greeting_of(server, first) is Refused,
{
}

/// A frame of another major version ends the connection with an answer that
/// says so; one that holds no message is answered, and one that cannot be read
/// ends the connection. None of them changes anything.
pub proof fn law_frames_without_a_message_change_nothing(
    server: ServerView,
    connection: ConnectionView,
    frame: FrameView,
    fresh: Seq<char>,
)
    ensures
        ({
            let step = frame_step(server, connection, frame, fresh);
            let unread = message::decoded::<EnvelopeView>(frame.body) is None;
            let empty = message::decoded::<EnvelopeView>(frame.body) == Some(
                EnvelopeView { payload: None },
            );
            &&& frame.header.major != 1 ==> step == (Step {
                server,
                connection,
                action: ActionView::ReplyAndClose(
                    replies::error_reply(frame.header, 1001, "连接期间协议版本改变"@, false),
                ),
            })
            &&& frame.header.major == 1 && !(frame.header.frame_type is Unknown) && empty ==> step
                == (Step {
                server,
                connection,
                action: ActionView::Reply(
                    replies::error_reply(frame.header, 1002, "空控制消息"@, false),
                ),
            })
            &&& frame.header.major == 1 && !(frame.header.frame_type is Unknown) && unread
                ==> step.server == server && step.connection == connection && step.action is Fail
        }),
{
}

/// A client can ask for the shares and begin a login at any time. A message that
/// only a server sends is answered with a refusal, and a request that was given
/// up is not answered.
pub proof fn law_open_requests_need_no_session(
    server: ServerView,
    connection: ConnectionView,
    header: FrameHeader,
    payload: PayloadView,
    fresh: Seq<char>,
)
    ensures
        ({
            let action = payload_step(server, connection, header, payload, fresh).action;
            &&& payload is ListSharesRequest ==> action is ListShares
            &&& payload matches PayloadView::AuthStart(request) ==> action
                == ActionView::StartLogin(request)
            &&& payload is Cancel ==> action is Ignore
            &&& payload is Hello || payload is VersionReject || payload is ListSharesResponse
                || payload is AuthChallenge || payload is AuthResult
                || payload is ListEntriesResponse || payload is SnapshotProgress
                || payload is SnapshotManifest || payload is SnapshotManifestPage
                || payload is SmallFileComplete || payload is SmallFileBatchComplete
                || payload is ChunkComplete || payload is Pong || payload is Error ==> action
                == ActionView::Reply(
                replies::error_reply(header, 1003, "当前方向不接受此消息"@, false),
            )
        }),
{
}

/// A batch of a snapshot that is not kept, and one that cannot be sent, are
/// answered with a refusal that tells why.
pub proof fn law_refused_batches_are_told(
    server: ServerView,
    connection: ConnectionView,
    header: FrameHeader,
    request: SmallFileBatchRequestView,
    fresh: Seq<char>,
)
    requires
        connection.active is Some,
    ensures
        ({
            let step = payload_step(
                server,
                connection,
                header,
                PayloadView::SmallFileBatchRequest(request),
                fresh,
            );
            &&& step.server == server
            &&& step.connection == connection
            &&& !server.snapshots.contains_key(request.snapshot_id) ==> step.action
                == ActionView::Reply(
                replies::error_reply(header, 4001, "快照不存在或已过期"@, true),
            )
            &&& server.snapshots.contains_key(request.snapshot_id) && !(step.action is ServeBatch)
                ==> (batch_of(server.snapshots[request.snapshot_id], request.file_ids) matches Err(
                error,
            ) && step.action == ActionView::Reply(
                replies::error_reply(header, 4005, error.text(), false),
            ))
            &&& request.file_ids.len() == 0 || request.file_ids.len() > 256 ==> !(step.action
                is ServeBatch)
        }),
{
}

/// A connection may list and pack the share whose password it proved; for any
/// other share its requests end the connection.
pub proof fn law_own_share_is_open(
    server: ServerView,
    connection: ConnectionView,
    header: FrameHeader,
    session: SessionView,
    list: ListEntriesRequestView,
    pack: CreateSnapshotRequestView,
    fresh: Seq<char>,
)
    requires
        connection.active == Some(session),
    ensures
        payload_step(
            server,
            connection,
            header,
            PayloadView::ListEntriesRequest(list),
            fresh,
        ).action == if list.share_id == session.share_id {
            ActionView::ListEntries(session.share_id, list)
        } else {
            ActionView::Fail(ErrorView::Auth("会话无权访问此分享"@))
        },
        payload_step(
            server,
            connection,
            header,
            PayloadView::CreateSnapshotRequest(pack),
            fresh,
        ).action == if pack.share_id == session.share_id {
            ActionView::BuildSnapshot(session.share_id, pack)
        } else {
            ActionView::Fail(ErrorView::Auth("会话无权访问此分享"@))
        },
{
}

/// Only a login that ends well changes what the server keeps: its session is
/// added under the new identity, for the share that the login was begun for,
/// and the client is told that identity. Every other message leaves all
/// sessions and all snapshots as they were.
pub proof fn law_server_keeps_what_it_has(
    server: ServerView,
    connection: ConnectionView,
    header: FrameHeader,
    payload: PayloadView,
    fresh: Seq<char>,
)
    ensures
        ({
            let step = payload_step(server, connection, header, payload, fresh);
            let opened = opened_session(server, connection, payload);
            &&& step.server.snapshots == server.snapshots
            &&& step.server.keys == server.keys
            &&& step.server.device_id == server.device_id
            &&& step.server.device_name == server.device_name
            &&& payload is AuthFinish && opened is Some ==> step.server.sessions
                == server.sessions.insert(fresh, opened->0)
            &&& !(payload is AuthFinish && opened is Some) ==> step.server.sessions
                == server.sessions
            &&& step.connection.pages == connection.pages
            &&& payload matches PayloadView::AuthFinish(request) ==> step.connection.pending
                == connection.pending.remove(challenge_key(request.challenge_id))
            &&& !(payload is AuthFinish) ==> step.connection.pending == connection.pending
        }),
{
    if let PayloadView::AuthFinish(request) = payload {
        let key = challenge_key(request.challenge_id);
        if !connection.pending.contains_key(key) {
            assert(connection.pending.remove(key) =~= connection.pending);
        }
    }
}

/// A login is answered with success exactly where it opens a session; the
/// answer then names the new session and proves that the server has its key.
/// A client that has no login under its challenge is told so.
pub proof fn law_logins_are_answered(
    server: ServerView,
    connection: ConnectionView,
    header: FrameHeader,
    request: AuthFinishView,
    fresh: Seq<char>,
)
    ensures
        ({
            let action = payload_step(
                server,
                connection,
                header,
                PayloadView::AuthFinish(request),
                fresh,
            ).action;
            let known = connection.pending.contains_key(challenge_key(request.challenge_id));
            let opened = opened_session(server, connection, PayloadView::AuthFinish(request));
            &&& !known ==> action == ActionView::Reply(
                replies::error_reply(header, 2003, "认证挑战已失效"@, true),
            )
            &&& known ==> exists|result: AuthResultView|
                action == ActionView::Reply(
                    #[trigger] replies::reply(
                        header,
                        FrameType::Control,
                        PayloadView::AuthResult(result),
                    ),
                ) && result.success == (opened is Some) && (opened matches Some(session)
                    ==> result.session_id == fresh && result.error.len() == 0
                    && result.server_proof == auth::mac_of(
                    session.key,
                    seq![utf8::encode_utf8("lanflow-auth-ok"@), utf8::encode_utf8(fresh)],
                ))
        }),
{
    let opened = opened_session(server, connection, PayloadView::AuthFinish(request));
    let result = match opened {
        Some(session) => AuthResultView {
            success: true,
            session_id: fresh,
            server_proof: login_proof(session.key, fresh),
            error: Seq::empty(),
        },
        None => AuthResultView {
            success: false,
            session_id: Seq::empty(),
            server_proof: Seq::empty(),
            error: "密码不正确"@,
        },
    };
    assert(replies::reply(header, FrameType::Control, PayloadView::AuthResult(result))
        == replies::reply(header, FrameType::Control, PayloadView::AuthResult(result)));
}

/// A client that wants to join a session it cannot prove to have ends its
/// connection; one that names a session that is not there is told so.
pub proof fn law_joining_needs_the_key(
    server: ServerView,
    connection: ConnectionView,
    header: FrameHeader,
    request: SessionAttachView,
    fresh: Seq<char>,
)
    ensures
        ({
            let step = payload_step(
                server,
                connection,
                header,
                PayloadView::SessionAttach(request),
                fresh,
            );
            let known = server.sessions.contains_key(request.session_id);
            let session = server.sessions[request.session_id];
            let proven = request.proof == auth::mac_of(
                session.key,
                seq![
                    utf8::encode_utf8("lanflow-attach"@),
                    utf8::encode_utf8(request.session_id),
                    request.nonce,
                ],
            );
            &&& !known ==> step.connection == connection && step.action == ActionView::Reply(
                replies::error_reply(header, 2004, "会话不存在"@, true),
            )
            &&& known && !proven ==> step.connection == connection && step.action
                == ActionView::Fail(ErrorView::Auth("消息认证码无效"@))
            &&& known && proven ==> step.connection == (ConnectionView {
                active: Some(session),
                ..connection
            }) && step.action is Reply
        }),
{
}

/// A share can be logged in to exactly where it is there and open.
pub proof fn law_closed_shares_refuse_logins(header: FrameHeader, enabled: Option<bool>)
    ensures
        login_refusal(header, enabled) is None <==> enabled == Some(true),
        enabled is None ==> login_refusal(header, enabled) == Some(
            replies::error_reply(header, 2001, "分享不存在"@, false),
        ),
        enabled == Some(false) ==> login_refusal(header, enabled) == Some(
            replies::error_reply(header, 2002, "分享已停用"@, false),
        ),
{
}

/// A sign of life is answered with the time it carries; a cancelled request is
/// not answered; and neither changes anything.
pub proof fn law_pings_are_answered(
    server: ServerView,
    connection: ConnectionView,
    header: FrameHeader,
    timestamp_ms: i64,
    payload: PayloadView,
    fresh: Seq<char>,
)
    requires
        payload matches PayloadView::Ping(ping) && ping.timestamp_ms == timestamp_ms,
    ensures
        payload_step(server, connection, header, payload, fresh) == (Step {
            server,
            connection,
            action: ActionView::Reply(
                replies::reply(
                    header,
                    FrameType::Pong,
                    PayloadView::Pong(PongView { timestamp_ms }),
                ),
            ),
        }),
{
}

/// What a frame of this version leads to is what the message in it leads to.
pub proof fn law_frames_carry_messages(
    server: ServerView,
    connection: ConnectionView,
    header: FrameHeader,
    payload: PayloadView,
    fresh: Seq<char>,
)
    requires
        header.major == PROTOCOL_MAJOR,
        !(header.frame_type is Unknown),
        message::encoded(EnvelopeView { payload: Some(payload) }).len() <= u64::MAX,
    ensures
        frame_step(
            server,
            connection,
            FrameView {
                header,
                body: message::encoded(EnvelopeView { payload: Some(payload) }),
            },
            fresh,
        ) == payload_step(server, connection, header, payload, fresh),
{
    message::lemma_roundtrip(EnvelopeView { payload: Some(payload) });
}

/// A page holds as many entries as were asked for, but never none and never
/// more than a thousand.
pub proof fn law_page_sizes_are_bounded(requested: u32, other: u32)
    ensures
        1 <= page_size(requested) <= 1000,
        1 <= requested <= 1000 ==> page_size(requested) == requested,
        requested <= other ==> page_size(requested) <= page_size(other),
{
}

/// The page after a page begins where that one ended.
pub proof fn law_next_page_follows(offset: u32, count: u32)
    ensures
        offset + count <= u32::MAX ==> next_offset(offset, count) == offset + count,
        offset + count > u32::MAX ==> next_offset(offset, count) == u32::MAX,
{
}

/// A frame of a kind that this version does not know changes nothing and is
/// not answered.
pub proof fn law_unknown_frames_are_ignored(
    server: ServerView,
    connection: ConnectionView,
    frame: FrameView,
    fresh: Seq<char>,
)
    requires
        frame.header.major == PROTOCOL_MAJOR,
        frame.header.frame_type is Unknown,
    ensures
        frame_step(server, connection, frame, fresh) == (Step {
            server,
            connection,
            action: ActionView::Ignore,
        }),
{
}

} // verus!
