use lanflow::auth::{begin_client_login, mac, new_server_setup, register_password};
use lanflow::error::{IoError, IoErrorKind, LanFlowError, ProtocolError};
use lanflow::frame::{Frame, FrameHeader, FrameType, FLAG_MORE};
use lanflow::models::ShareDto;
use lanflow::protocol::{decode_envelope, encode_envelope, envelope};
use lanflow::replies::{
    chunk_complete_frame, data_blocks, data_frame, progress_frame,
    small_file_complete_frame,
};
use lanflow::server::{
    batch_complete_frame, batch_failed_frame, chunk_failed_frame,
    check_chunk_source, check_source_size, connection_ended, greet, handle_frame, hello_message,
    listing_frame, listing_limit, on_frame, prepare_small_file_batch, progress_frames,
    require_session,
    share_gone_frame, shares_frame, snapshot_chunk_size, snapshot_frames, start_login, Action,
    Connection, Greeting, ServerContext, Session,
};
use lanflow::snapshot::{scanning_progress, SnapshotFile, SnapshotRecord};
use lanflow::wire::envelope::{Envelope, Payload};
use lanflow::wire::listing::{ListEntriesRequest, ListSharesRequest};
use lanflow::wire::session::{AuthFinish, AuthResult, AuthStart, Hello, SessionAttach};
use lanflow::wire::snapshot::{ChunkHash, CreateSnapshotRequest, ManifestFile};
use lanflow::wire::transfer::{Cancel, ChunkRequest, Error, Ping, Pong, SmallFileBatchRequest};

fn header() -> FrameHeader {
    FrameHeader::new(FrameType::Control, 5, 6)
}

fn control(payload: Payload) -> Frame {
    Frame { header: header(), body: encode_envelope(&envelope(payload)).unwrap() }
}

fn payload(frame: &Frame) -> Payload {
    decode_envelope(&frame.body).unwrap().payload.unwrap()
}

fn context() -> ServerContext {
    ServerContext::new(new_server_setup(), "device".to_owned(), "name".to_owned())
}

fn connect(context: &ServerContext, max_minor: u32) -> Connection {
    let hello = Hello { max_minor, ..hello_message("client", "c") };
    let first = Frame {
        header: FrameHeader::new(FrameType::Hello, 0, 1),
        body: encode_envelope(&envelope(Payload::Hello(hello))).unwrap(),
    };
    match greet(context, &first) {
        Greeting::Accepted(frame, connection) => {
            assert_eq!(frame.header.frame_type, FrameType::Hello);
            assert_eq!(frame.header.request_id, 1);
            connection
        }
        _ => panic!(),
    }
}

fn reply(action: Action) -> Frame {
    match action {
        Action::Reply(frame) => frame,
        _ => panic!("no reply"),
    }
}

fn expect_error(action: Action, code: u32, message: &str, retryable: bool) {
    let frame = reply(action);
    assert_eq!(frame.header.frame_type, FrameType::Error);
    assert_eq!(frame.header.stream_id, 5);
    assert_eq!(frame.header.request_id, 6);
    match payload(&frame) {
        Payload::Error(error) => {
            assert_eq!(error.code, code);
            assert_eq!(error.message, message);
            assert_eq!(error.retryable, retryable);
        }
        _ => panic!(),
    }
}

fn expect_fail(action: Action, message: &str) {
    match action {
        Action::Fail(error) => assert_eq!(error.message(), message),
        _ => panic!("no failure"),
    }
}

fn session(share_id: &str) -> Session {
    Session { key: b"key".to_vec(), share_id: share_id.to_owned() }
}

fn small_file(id: &str, data: &[u8]) -> SnapshotFile {
    let hash = blake3::hash(data).as_bytes().to_vec();
    SnapshotFile {
        absolute_path: "/tmp/small".into(),
        manifest: ManifestFile {
            id: id.to_owned(),
            relative_path: id.to_owned(),
            size: data.len() as u64,
            modified_ms: 1,
            blake3: hash.clone(),
            chunks: vec![ChunkHash {
                index: 0,
                offset: 0,
                length: data.len() as u32,
                blake3: hash,
            }],
            is_dir: false,
        },
    }
}

#[test]
fn small_file_batch_validation_rejects_duplicates() {
    let data = b"small payload";
    let file = small_file("small", data);
    let snapshot = SnapshotRecord::new("snapshot".into(), vec![file]);
    assert!(prepare_small_file_batch(&snapshot, &["small".into()]).is_ok());
    assert!(prepare_small_file_batch(&snapshot, &["small".into(), "small".into()]).is_err());
}

#[test]
fn batches_are_refused_for_each_reason() {
    let mut dir = small_file("dir", b"x");
    dir.manifest.is_dir = true;
    let mut two = small_file("two", b"xy");
    let chunk = two.manifest.chunks[0].clone();
    two.manifest.chunks.push(chunk);
    let mut empty = small_file("empty", b"");
    empty.manifest.chunks.clear();
    let mut odd = small_file("odd", b"z");
    odd.manifest.blake3[0] ^= 1;
    let large = small_file("large", &vec![1; 262_145]);
    let mut files = vec![dir, two, empty, odd, large];
    for n in 0..20 {
        files.push(small_file(&format!("f{n}"), &vec![n as u8; 262_144]));
    }
    let snapshot = SnapshotRecord::new("s".into(), files);
    let text = |ids: &[&str]| {
        let ids: Vec<String> = ids.iter().map(|id| id.to_string()).collect();
        match prepare_small_file_batch(&snapshot, &ids) {
            Ok(files) => format!("{}", files.len()),
            Err(error) => error.message(),
        }
    };
    assert_eq!(text(&["empty", "f0"]), "2");
    assert_eq!(text(&[]), "输入无效: 小文件批次数量超出上限");
    assert_eq!(text(&["f0"; 257]), "输入无效: 小文件批次数量超出上限");
    assert_eq!(text(&["f0", "f1", "f0"]), "输入无效: 小文件批次包含重复文件");
    assert_eq!(text(&["f0", "nope"]), "未找到: 快照文件不存在");
    for id in ["dir", "two", "odd", "large"] {
        assert_eq!(text(&[id]), "输入无效: 批次包含非小文件或不兼容分片");
    }
    let many: Vec<String> = (0..17).map(|n| format!("f{n}")).collect();
    assert_eq!(
        prepare_small_file_batch(&snapshot, &many).unwrap_err().message(),
        "输入无效: 小文件批次字节数超出上限"
    );
    assert_eq!(prepare_small_file_batch(&snapshot, &many[..16]).unwrap().len(), 16);
}

#[test]
fn greetings() {
    let context = context();
    let refuse = |frame: Frame, message: &str| match greet(&context, &frame) {
        Greeting::Refused(error) => assert_eq!(error.message(), message),
        _ => panic!(),
    };
    refuse(control(Payload::Ping(Ping { timestamp_ms: 0 })), "协议错误: 连接首帧必须是 Hello");
    let mut wrong = control(Payload::Ping(Ping { timestamp_ms: 0 }));
    wrong.header.frame_type = FrameType::Hello;
    refuse(wrong, "协议错误: Hello 帧正文无效");
    let junk = Frame { header: FrameHeader::new(FrameType::Hello, 0, 1), body: vec![0xff] };
    refuse(junk, "协议错误: failed to decode Protobuf message");
    for (min_major, max_major) in [(2, 3), (0, 0)] {
        let hello = Hello { min_major, max_major, ..hello_message("c", "n") };
        let mut first = control(Payload::Hello(hello));
        first.header.frame_type = FrameType::Hello;
        match greet(&context, &first) {
            Greeting::Rejected(frame, error) => {
                assert_eq!(frame.header.frame_type, FrameType::VersionReject);
                assert_eq!(error.message(), "协议错误: 协议主版本不兼容");
                match payload(&frame) {
                    Payload::VersionReject(reject) => {
                        assert_eq!(reject.min_major, 1);
                        assert_eq!(reject.reason, "不支持的协议主版本");
                    }
                    _ => panic!(),
                }
            }
            _ => panic!(),
        }
    }
    assert!(!connect(&context, 0).pages);
    assert!(connect(&context, 1).pages);
    let hello = hello_message("d", "n");
    assert_eq!(hello.max_frame_size, 1 << 20);
    assert_eq!(hello.max_concurrent_streams, 16);
    assert_eq!(hello.features, 15);
}

#[test]
fn failed_reads_end_or_fail() {
    let io = |kind| ProtocolError::Io(IoError { kind, message: String::new() });
    assert!(connection_ended(&io(IoErrorKind::UnexpectedEof)));
    assert!(connection_ended(&io(IoErrorKind::ConnectionReset)));
    assert!(connection_ended(&io(IoErrorKind::BrokenPipe)));
    assert!(!connection_ended(&io(IoErrorKind::Other)));
    assert!(!connection_ended(&ProtocolError::Protocol(String::new())));
}

#[test]
fn frames_that_are_no_request() {
    let mut context = context();
    let mut connection = connect(&context, 0);
    let mut old = control(Payload::Ping(Ping { timestamp_ms: 0 }));
    old.header.major = 2;
    match on_frame(&mut context, &mut connection, &old, String::new()) {
        Action::ReplyAndClose(frame) => match payload(&frame) {
            Payload::Error(error) => {
                assert_eq!(error.code, 1001);
                assert_eq!(error.message, "连接期间协议版本改变");
            }
            _ => panic!(),
        },
        _ => panic!(),
    }
    let mut unknown = control(Payload::Ping(Ping { timestamp_ms: 0 }));
    unknown.header.frame_type = FrameType::Unknown(77);
    unknown.body = vec![0xff];
    assert!(matches!(
        on_frame(&mut context, &mut connection, &unknown, String::new()),
        Action::Ignore
    ));
    let empty = Frame { header: header(), body: encode_envelope(&Envelope { payload: None }).unwrap() };
    expect_error(on_frame(&mut context, &mut connection, &empty, String::new()), 1002, "空控制消息", false);
    let junk = Frame { header: header(), body: vec![0xff] };
    expect_fail(
        on_frame(&mut context, &mut connection, &junk, String::new()),
        "协议错误: failed to decode Protobuf message",
    );
    let odd = control(Payload::Pong(Pong { timestamp_ms: 0 }));
    expect_error(
        on_frame(&mut context, &mut connection, &odd, String::new()),
        1003,
        "当前方向不接受此消息",
        false,
    );
    let cancel = control(Payload::Cancel(Cancel { request_id: 1 }));
    assert!(matches!(
        on_frame(&mut context, &mut connection, &cancel, String::new()),
        Action::Ignore
    ));
    let ping = control(Payload::Ping(Ping { timestamp_ms: 12 }));
    let frame = reply(on_frame(&mut context, &mut connection, &ping, String::new()));
    assert_eq!(frame.header.frame_type, FrameType::Pong);
    match payload(&frame) {
        Payload::Pong(pong) => assert_eq!(pong.timestamp_ms, 12),
        _ => panic!(),
    }
    let list = control(Payload::ListSharesRequest(ListSharesRequest {}));
    assert!(matches!(
        on_frame(&mut context, &mut connection, &list, String::new()),
        Action::ListShares
    ));
}

#[test]
fn login_opens_a_session() {
    let mut context = context();
    let mut connection = connect(&context, 0);
    let record = register_password(&context.setup, "share", "pw").unwrap();
    let (request, client) = begin_client_login("pw".into()).unwrap();
    let start = control(Payload::AuthStart(AuthStart {
        share_id: "share".to_owned(),
        credential_request: request,
    }));
    let request = match on_frame(&mut context, &mut connection, &start, String::new()) {
        Action::StartLogin(request) => request,
        _ => panic!(),
    };
    let frame = reply(start_login(
        &context,
        &mut connection,
        &header(),
        request,
        Some((true, record)),
    ));
    let challenge = match payload(&frame) {
        Payload::AuthChallenge(challenge) => challenge,
        _ => panic!(),
    };
    assert_eq!(challenge.challenge_id.len(), 16);
    let (finalization, key) = client.finish(&challenge.credential_response).unwrap();
    let finish = || {
        control(Payload::AuthFinish(AuthFinish {
            challenge_id: challenge.challenge_id.clone(),
            credential_finalization: finalization.clone(),
        }))
    };
    let frame = reply(handle_frame(&mut context, &mut connection, &finish()));
    let result = match payload(&frame) {
        Payload::AuthResult(result) => result,
        _ => panic!(),
    };
    assert!(result.success);
    assert_eq!(result.session_id.len(), 36);
    assert_eq!(
        result.server_proof,
        mac(&key, &[b"lanflow-auth-ok", result.session_id.as_bytes()]).unwrap()
    );
    assert_eq!(connection.active.as_ref().unwrap().share_id, "share");
    assert_eq!(context.sessions.get(&result.session_id).unwrap().key, key);
    // The challenge is gone.
    expect_error(
        handle_frame(&mut context, &mut connection, &finish()),
        2003,
        "认证挑战已失效",
        true,
    );
    // Another connection joins the session.
    let mut second = connect(&context, 0);
    let nonce = vec![4; 32];
    let attach = |proof: Vec<u8>| {
        control(Payload::SessionAttach(SessionAttach {
            session_id: result.session_id.clone(),
            nonce: nonce.clone(),
            proof,
        }))
    };
    let proof = mac(&key, &[b"lanflow-attach", result.session_id.as_bytes(), &nonce]).unwrap();
    expect_fail(
        handle_frame(&mut context, &mut second, &attach(vec![0; 32])),
        "认证失败: 消息认证码无效",
    );
    assert!(second.active.is_none());
    let frame = reply(handle_frame(&mut context, &mut second, &attach(proof)));
    match payload(&frame) {
        Payload::AuthResult(AuthResult { success, session_id, server_proof, error }) => {
            assert!(success);
            assert_eq!(session_id, result.session_id);
            assert!(server_proof.is_empty());
            assert!(error.is_empty());
        }
        _ => panic!(),
    }
    assert_eq!(second.active.unwrap().key, key);
}

#[test]
fn logins_that_fail() {
    let mut context = context();
    let mut connection = connect(&context, 0);
    let start = || AuthStart { share_id: "share".to_owned(), credential_request: b"junk".to_vec() };
    expect_error(
        start_login(&context, &mut connection, &header(), start(), None),
        2001,
        "分享不存在",
        false,
    );
    expect_error(
        start_login(&context, &mut connection, &header(), start(), Some((false, Vec::new()))),
        2002,
        "分享已停用",
        false,
    );
    assert!(matches!(
        start_login(&context, &mut connection, &header(), start(), Some((true, Vec::new()))),
        Action::Fail(LanFlowError::Auth(_))
    ));
    let record = register_password(&context.setup, "share", "pw").unwrap();
    let (request, _) = begin_client_login("other".into()).unwrap();
    let frame = reply(start_login(
        &context,
        &mut connection,
        &header(),
        AuthStart { share_id: "share".to_owned(), credential_request: request },
        Some((true, record)),
    ));
    let challenge = match payload(&frame) {
        Payload::AuthChallenge(challenge) => challenge,
        _ => panic!(),
    };
    let finish = control(Payload::AuthFinish(AuthFinish {
        challenge_id: challenge.challenge_id,
        credential_finalization: vec![0; 64],
    }));
    let frame = reply(on_frame(&mut context, &mut connection, &finish, "new".to_owned()));
    match payload(&frame) {
        Payload::AuthResult(result) => {
            assert!(!result.success);
            assert_eq!(result.error, "密码不正确");
            assert!(result.session_id.is_empty());
        }
        _ => panic!(),
    }
    assert!(connection.active.is_none());
    assert!(context.sessions.get("new").is_none());
    let attach = control(Payload::SessionAttach(SessionAttach {
        session_id: "none".to_owned(),
        nonce: Vec::new(),
        proof: Vec::new(),
    }));
    expect_error(
        on_frame(&mut context, &mut connection, &attach, String::new()),
        2004,
        "会话不存在",
        true,
    );
}

fn requests() -> Vec<Payload> {
    vec![
        Payload::ListEntriesRequest(ListEntriesRequest {
            share_id: "share".to_owned(),
            relative_path: String::new(),
            offset: 0,
            limit: 10,
            query: String::new(),
        }),
        Payload::CreateSnapshotRequest(CreateSnapshotRequest {
            share_id: "share".to_owned(),
            relative_paths: vec!["a".to_owned()],
            chunk_size: 0,
        }),
        Payload::SmallFileBatchRequest(SmallFileBatchRequest {
            snapshot_id: "snap".to_owned(),
            file_ids: vec!["f".to_owned()],
        }),
        Payload::ChunkRequest(ChunkRequest {
            snapshot_id: "snap".to_owned(),
            file_id: "f".to_owned(),
            chunk_index: 0,
        }),
    ]
}

#[test]
fn nothing_without_a_session() {
    let mut context = context();
    let mut connection = connect(&context, 0);
    for request in requests() {
        expect_fail(
            on_frame(&mut context, &mut connection, &control(request), String::new()),
            "认证失败: 请先认证",
        );
    }
    assert_eq!(
        require_session(&None, "share").unwrap_err().message(),
        "认证失败: 请先认证"
    );
}

#[test]
fn only_the_own_share() {
    let mut context = context();
    let mut connection = connect(&context, 0);
    connection.active = Some(session("other"));
    for request in requests().into_iter().take(2) {
        expect_fail(
            on_frame(&mut context, &mut connection, &control(request), String::new()),
            "认证失败: 会话无权访问此分享",
        );
    }
    connection.active = Some(session("share"));
    let mut requests = requests().into_iter();
    match on_frame(&mut context, &mut connection, &control(requests.next().unwrap()), String::new()) {
        Action::ListEntries(share_id, request) => {
            assert_eq!(share_id, "share");
            assert_eq!(request.limit, 10);
        }
        _ => panic!(),
    }
    match on_frame(&mut context, &mut connection, &control(requests.next().unwrap()), String::new()) {
        Action::BuildSnapshot(share_id, request) => {
            assert_eq!(share_id, "share");
            assert_eq!(request.relative_paths, vec!["a"]);
        }
        _ => panic!(),
    }
    assert_eq!(require_session(&Some(session("s")), "s").unwrap().key, b"key".to_vec());
}

#[test]
fn chunks_and_batches_of_a_snapshot() {
    let mut context = context();
    let mut connection = connect(&context, 0);
    connection.active = Some(session("share"));
    for request in requests().into_iter().skip(2) {
        expect_error(
            on_frame(&mut context, &mut connection, &control(request), String::new()),
            4001,
            "快照不存在或已过期",
            true,
        );
    }
    context.keep_snapshot(SnapshotRecord::new("snap".into(), vec![small_file("f", b"data")]));
    let mut list = requests().into_iter().skip(2);
    match on_frame(&mut context, &mut connection, &control(list.next().unwrap()), String::new()) {
        Action::ServeBatch(files) => assert_eq!(files[0].manifest.id, "f"),
        _ => panic!(),
    }
    match on_frame(&mut context, &mut connection, &control(list.next().unwrap()), String::new()) {
        Action::ServeChunk(job) => {
            assert_eq!(job.absolute_path, "/tmp/small");
            assert_eq!(job.file_id, "f");
            assert_eq!(job.chunk.length, 4);
        }
        _ => panic!(),
    }
    let chunk = |file_id: &str, chunk_index: u32| {
        control(Payload::ChunkRequest(ChunkRequest {
            snapshot_id: "snap".to_owned(),
            file_id: file_id.to_owned(),
            chunk_index,
        }))
    };
    expect_error(
        on_frame(&mut context, &mut connection, &chunk("g", 0), String::new()),
        4002,
        "快照文件不存在",
        false,
    );
    expect_error(
        on_frame(&mut context, &mut connection, &chunk("f", 1), String::new()),
        4003,
        "分片不存在",
        false,
    );
    let batch = control(Payload::SmallFileBatchRequest(SmallFileBatchRequest {
        snapshot_id: "snap".to_owned(),
        file_ids: vec!["f".to_owned(), "f".to_owned()],
    }));
    expect_error(
        on_frame(&mut context, &mut connection, &batch, String::new()),
        4005,
        "输入无效: 小文件批次包含重复文件",
        false,
    );
}

#[test]
fn enabled_shares_are_listed() {
    let share = |id: &str, enabled| ShareDto {
        id: id.to_owned(),
        name: format!("name {id}"),
        path: "/secret".to_owned(),
        enabled,
        created_at: 0,
    };
    let frame = shares_frame(&header(), &vec![share("1", true), share("2", false), share("3", true)]);
    match payload(&frame) {
        Payload::ListSharesResponse(response) => {
            let ids: Vec<&str> = response.shares.iter().map(|s| s.id.as_str()).collect();
            assert_eq!(ids, vec!["1", "3"]);
            assert_eq!(response.shares[1].name, "name 3");
        }
        _ => panic!(),
    }
}

#[test]
fn listing_answers() {
    assert_eq!(listing_limit(0), 1);
    assert_eq!(listing_limit(500), 500);
    assert_eq!(listing_limit(5000), 1000);
    let frame = listing_frame(&header(), u32::MAX, Vec::new(), true);
    match payload(&frame) {
        Payload::ListEntriesResponse(response) => {
            assert_eq!(response.next_offset, u32::MAX);
            assert!(response.has_more);
        }
        _ => panic!(),
    }
    match payload(&share_gone_frame(&header())) {
        Payload::Error(Error { code, message, .. }) => {
            assert_eq!(code, 3001);
            assert_eq!(message, "分享不存在");
        }
        _ => panic!(),
    }
}

#[test]
fn snapshot_answers() {
    assert_eq!(snapshot_chunk_size(0), 8 << 20);
    assert_eq!(snapshot_chunk_size(5), 5);
    let context = context();
    let record = SnapshotRecord::new("snap".into(), vec![small_file("f", b"data")]);
    let (frames, sent) = snapshot_frames(&connect(&context, 0), &header(), &record);
    assert!(sent.is_ok());
    assert_eq!(frames.len(), 1);
    match payload(&frames[0]) {
        Payload::SnapshotManifest(manifest) => assert_eq!(manifest.files.len(), 1),
        _ => panic!(),
    }
    let (frames, _) = snapshot_frames(&connect(&context, 1), &header(), &record);
    match payload(&frames[0]) {
        Payload::SnapshotManifestPage(page) => {
            assert!(page.done);
            assert_eq!(page.snapshot_id, "snap");
        }
        _ => panic!(),
    }
    let frame = progress_frame(&header(), scanning_progress("snap", 3, "p", 2));
    assert_eq!(frame.header.flags, FLAG_MORE);
    match payload(&frame) {
        Payload::SnapshotProgress(progress) => {
            assert_eq!(progress.phase, "scanning");
            assert_eq!(progress.scanned_entries, 3);
        }
        _ => panic!(),
    }
}

#[test]
fn only_newer_clients_get_reports() {
    let context = context();
    let report = || scanning_progress("snap", 3, "p", 2);
    assert!(progress_frames(&connect(&context, 0), &header(), report()).is_none());
    let frame = progress_frames(&connect(&context, 1), &header(), report()).unwrap();
    assert!(matches!(payload(&frame), Payload::SnapshotProgress(_)));
}

#[test]
fn data_is_cut_into_blocks() {
    let blocks = data_blocks(100, 600_000);
    assert_eq!(blocks.len(), 3);
    assert_eq!((blocks[0].offset, blocks[0].length, blocks[0].sequence), (100, 262_144, 0));
    assert_eq!((blocks[1].offset, blocks[1].length, blocks[1].sequence), (262_244, 262_144, 1));
    assert_eq!((blocks[2].offset, blocks[2].length, blocks[2].sequence), (524_388, 75_712, 2));
    assert!(data_blocks(5, 0).is_empty());
    assert_eq!(data_blocks(u64::MAX - 1, 1).len(), 1);
    let frame = data_frame(&header(), 7, 8, vec![1]);
    assert_eq!(frame.header.frame_type, FrameType::Data);
    assert_eq!(frame.header.file_offset, 7);
    assert_eq!(frame.header.sequence, 8);
    assert_eq!(frame.header.stream_id, 5);
}

#[test]
fn ends_of_transfers() {
    let file = small_file("f", b"data");
    match payload(&chunk_complete_frame(&header(), "f".to_owned(), &file.manifest.chunks[0])) {
        Payload::ChunkComplete(complete) => {
            assert_eq!(complete.bytes_sent, 4);
            assert_eq!(complete.blake3, file.manifest.blake3);
        }
        _ => panic!(),
    }
    let frame = small_file_complete_frame(&header(), &file.manifest);
    assert_eq!(frame.header.flags, FLAG_MORE);
    let files = vec![small_file("f", b"data"), small_file("g", b"more data")];
    match payload(&batch_complete_frame(&header(), &files)) {
        Payload::SmallFileBatchComplete(complete) => {
            assert_eq!(complete.files_sent, 2);
            assert_eq!(complete.bytes_sent, 13);
        }
        _ => panic!(),
    }
    let reason = LanFlowError::Protocol("m".to_owned());
    expect_error(Action::Reply(batch_failed_frame(&header(), &reason)), 4006, "协议错误: m", true);
    expect_error(Action::Reply(chunk_failed_frame(&header(), &reason)), 4004, "协议错误: m", true);
    assert!(check_source_size(&file, 4).is_ok());
    assert_eq!(
        check_source_size(&file, 5).unwrap_err().message(),
        "协议错误: 源文件在传输期间发生变化: f"
    );
    assert!(check_chunk_source(4, &file.manifest.chunks[0]).is_ok());
    assert_eq!(
        check_chunk_source(3, &file.manifest.chunks[0]).unwrap_err().message(),
        "协议错误: 源文件在传输期间发生变化"
    );
    let far = ChunkHash { index: 0, offset: u64::MAX, length: 9, blake3: Vec::new() };
    assert!(check_chunk_source(u64::MAX - 1, &far).is_err());
}
