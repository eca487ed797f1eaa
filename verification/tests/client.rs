use lanflow::auth::{begin_server_login, mac, new_server_setup, register_password};
use lanflow::client::{
    accept_hello, answer_challenge, attach_request, attach_request_with, attach_result,
    bad_address, begin_authentication, chunk_cut_off, conclude_authentication, final_frame,
    hello_frame, peer_from_hello, remote_entries, remote_shares, request_frame, session_to_join,
    snapshot_timeout_secs, unary_answer, AuthSession, ChunkDownload, ChunkEvent, CollectorEvent,
    Received, Router, SnapshotCollector,
};
use lanflow::frame::{Frame, FrameHeader, FrameType, FLAG_MORE};
use lanflow::paging::send_snapshot_pages;
use lanflow::protocol::{decode_envelope, encode_envelope, envelope};
use lanflow::replies::{chunk_complete_frame, data_blocks, data_frame};
use lanflow::server::{greet, hello_message, Greeting, ServerContext};
use lanflow::snapshot::{FileHasher, SnapshotFile, SnapshotRecord};
use lanflow::wire::envelope::{Envelope, Payload};
use lanflow::wire::listing::{Entry, ListEntriesResponse, ListSharesResponse, ShareInfo};
use lanflow::wire::session::{AuthChallenge, AuthResult, VersionReject};
use lanflow::wire::snapshot::{
    ChunkHash, ManifestFile, SnapshotManifest, SnapshotManifestPage, SnapshotProgress,
};
use lanflow::wire::transfer::{ChunkComplete, Error, Ping, Pong};

fn frame_of(frame_type: FrameType, payload: Payload) -> Frame {
    Frame {
        header: FrameHeader::new(frame_type, 4, 5),
        body: encode_envelope(&envelope(payload)).unwrap(),
    }
}

fn control(payload: Payload) -> Frame {
    frame_of(FrameType::Control, payload)
}

fn wire_error(message: &str) -> Payload {
    Payload::Error(Error { code: 9, message: message.to_owned(), retryable: false })
}

fn pong() -> Payload {
    Payload::Pong(Pong { timestamp_ms: 3 })
}

fn auth_result(success: bool, error: &str) -> Payload {
    Payload::AuthResult(AuthResult {
        success,
        session_id: "s".to_owned(),
        server_proof: Vec::new(),
        error: error.to_owned(),
    })
}

#[test]
fn hello_is_exchanged() {
    let frame = hello_frame("device", "name");
    assert_eq!(frame.header.frame_type, FrameType::Hello);
    assert_eq!(frame.header.stream_id, 0);
    assert_eq!(frame.header.request_id, 1);
    let context = ServerContext::new(new_server_setup(), "server".to_owned(), "S".to_owned());
    let answer = match greet(&context, &frame) {
        Greeting::Accepted(answer, _) => answer,
        _ => panic!(),
    };
    let hello = accept_hello(&answer.body).unwrap();
    assert_eq!(hello.device_id, "server");
    let peer = peer_from_hello(&hello, "1.2.3.4".to_owned(), 80, true, 77);
    assert_eq!(peer.id, "server");
    assert_eq!(peer.name, "S");
    assert_eq!(peer.address, "1.2.3.4");
    assert_eq!((peer.port, peer.online, peer.manual, peer.last_seen), (80, true, true, 77));
    assert_eq!((peer.protocol_major, peer.protocol_minor), (1, 0));
}

#[test]
fn hello_answers_that_are_refused() {
    let reject = control(Payload::VersionReject(VersionReject {
        min_major: 2,
        max_major: 3,
        reason: "old".to_owned(),
    }));
    assert_eq!(accept_hello(&reject.body).unwrap_err().message(), "协议错误: old");
    assert_eq!(
        accept_hello(&control(pong()).body).unwrap_err().message(),
        "协议错误: 服务端 Hello 响应无效"
    );
    assert_eq!(accept_hello(&[]).unwrap_err().message(), "协议错误: 服务端 Hello 响应无效");
    assert_eq!(
        accept_hello(&[0xff]).unwrap_err().message(),
        "协议错误: failed to decode Protobuf message"
    );
    assert_eq!(bad_address().message(), "输入无效: 地址必须为 IP:端口");
}

#[test]
fn a_large_minor_version_wraps() {
    let mut hello = hello_message("d", "n");
    hello.max_minor = 0x1_0005;
    assert_eq!(peer_from_hello(&hello, String::new(), 1, false, 0).protocol_minor, 5);
}

#[test]
fn requests_are_numbered_and_routed() {
    let mut router = Router::new();
    assert_eq!(router.start(), (2, 1));
    assert_eq!(router.start(), (3, 2));
    let header = |frame_type, request_id, flags| {
        let mut header = FrameHeader::new(frame_type, 1, request_id);
        header.flags = flags;
        header
    };
    assert!(!router.deliver(&header(FrameType::Unknown(9), 2, 0)));
    assert!(!router.deliver(&header(FrameType::Control, 7, 0)));
    assert!(router.deliver(&header(FrameType::Data, 2, 0)));
    assert!(router.deliver(&header(FrameType::Control, 2, FLAG_MORE)));
    assert!(router.deliver(&header(FrameType::Control, 2, 0)));
    assert!(!router.deliver(&header(FrameType::Control, 2, 0)));
    router.give_up(3);
    assert!(!router.deliver(&header(FrameType::Data, 3, 0)));
    assert!(!final_frame(&header(FrameType::Data, 1, 0)));
    assert!(!final_frame(&header(FrameType::Control, 1, FLAG_MORE)));
    assert!(final_frame(&header(FrameType::Control, 1, 2)));
    let mut late = Router::new();
    late.next_request = u64::MAX;
    late.next_stream = u32::MAX;
    assert_eq!(late.start(), (u64::MAX, u32::MAX));
    assert_eq!(late.start(), (0, 0));
}

#[test]
fn request_frames_carry_their_message() {
    let frame = request_frame(8, 9, Payload::Ping(Ping { timestamp_ms: 1 }));
    assert_eq!(frame.header.frame_type, FrameType::Control);
    assert_eq!((frame.header.request_id, frame.header.stream_id), (8, 9));
    match decode_envelope(&frame.body).unwrap().payload.unwrap() {
        Payload::Ping(ping) => assert_eq!(ping.timestamp_ms, 1),
        _ => panic!(),
    }
}

#[test]
fn single_answers() {
    assert!(matches!(
        unary_answer(&Received::Frame(control(pong()))),
        Ok(Payload::Pong(_))
    ));
    let message = |received: Received| match unary_answer(&received) {
        Err(error) => error.message(),
        Ok(_) => panic!(),
    };
    assert_eq!(message(Received::Closed), "协议错误: 连接在响应前关闭");
    assert_eq!(message(Received::TimedOut), "协议错误: 请求响应超时");
    assert_eq!(message(Received::Frame(control(wire_error("no")))), "协议错误: no");
    let empty = Frame {
        header: FrameHeader::new(FrameType::Control, 1, 1),
        body: encode_envelope(&Envelope { payload: None }).unwrap(),
    };
    assert_eq!(message(Received::Frame(empty)), "协议错误: 空响应");
    let junk = Frame { header: FrameHeader::new(FrameType::Control, 1, 1), body: vec![8] };
    assert_eq!(
        message(Received::Frame(junk)),
        "协议错误: failed to decode Protobuf message"
    );
}

#[test]
fn passwords_are_proved() {
    let setup = new_server_setup();
    let record = register_password(&setup, "share", "pw").unwrap();
    let (payload, login) = begin_authentication("share".to_owned(), "pw".to_owned()).unwrap();
    let start = match payload {
        Payload::AuthStart(start) => start,
        _ => panic!(),
    };
    assert_eq!(start.share_id, "share");
    let (response, server_login) =
        begin_server_login(&setup, "share", &record, &start.credential_request).unwrap();
    let challenge = Payload::AuthChallenge(AuthChallenge {
        credential_response: response,
        challenge_id: vec![1, 2],
    });
    let (payload, key) = answer_challenge(login, challenge).unwrap();
    let finish = match payload {
        Payload::AuthFinish(finish) => finish,
        _ => panic!(),
    };
    assert_eq!(finish.challenge_id, vec![1, 2]);
    let server_key = server_login.finish(&finish.credential_finalization).unwrap();
    assert_eq!(server_key, key);
    let result = |proof: Vec<u8>| {
        Payload::AuthResult(AuthResult {
            success: true,
            session_id: "session".to_owned(),
            server_proof: proof,
            error: String::new(),
        })
    };
    let proof = mac(&key, &[b"lanflow-auth-ok", b"session"]).unwrap();
    assert!(conclude_authentication(result(vec![0; 32]), key.clone()).is_err());
    let session = conclude_authentication(result(proof), key.clone()).unwrap();
    assert_eq!(session.session_id, "session");
    assert_eq!(session.key, key);
}

#[test]
fn login_answers_that_are_refused() {
    let (_, login) = begin_authentication("share".to_owned(), "pw".to_owned()).unwrap();
    match answer_challenge(login, pong()) {
        Err(error) => assert_eq!(error.message(), "协议错误: 认证挑战响应无效"),
        Ok(_) => panic!(),
    }
    match conclude_authentication(pong(), Vec::new()) {
        Err(error) => assert_eq!(error.message(), "协议错误: 认证结果响应无效"),
        Ok(_) => panic!(),
    }
    match conclude_authentication(auth_result(false, "wrong"), Vec::new()) {
        Err(error) => assert_eq!(error.message(), "认证失败: wrong"),
        Ok(_) => panic!(),
    }
}

#[test]
fn sessions_are_joined() {
    let session = AuthSession { session_id: "id".to_owned(), key: b"key".to_vec() };
    let request = attach_request_with(&session, vec![5; 32]);
    assert_eq!(request.session_id, "id");
    assert_eq!(request.nonce, vec![5; 32]);
    assert_eq!(
        request.proof,
        mac(b"key", &[b"lanflow-attach", b"id", &[5; 32]]).unwrap()
    );
    let drawn = attach_request(&session);
    let again = attach_request(&session);
    assert_eq!(drawn.nonce.len(), 32);
    assert_ne!(drawn.nonce, again.nonce);
    assert_eq!(
        drawn.proof,
        mac(b"key", &[b"lanflow-attach", b"id", &drawn.nonce]).unwrap()
    );
    assert!(attach_result(auth_result(true, "")).is_ok());
    assert_eq!(
        attach_result(auth_result(false, "gone")).unwrap_err().message(),
        "认证失败: gone"
    );
    assert_eq!(
        attach_result(pong()).unwrap_err().message(),
        "协议错误: 附加会话响应无效"
    );
    assert_eq!(session_to_join(&Some(session)).unwrap_or_else(|_| panic!()).session_id, "id");
    match session_to_join(&None) {
        Err(error) => assert_eq!(error.message(), "认证失败: 请先输入分享密码"),
        Ok(_) => panic!(),
    }
}

#[test]
fn remote_lists() {
    let shares = Payload::ListSharesResponse(ListSharesResponse {
        shares: vec![ShareInfo { id: "1".to_owned(), name: "n".to_owned(), enabled: true }],
    });
    let list = remote_shares(shares).unwrap_or_else(|_| panic!());
    assert_eq!((list[0].id.as_str(), list[0].name.as_str(), list[0].enabled), ("1", "n", true));
    match remote_shares(pong()) {
        Err(error) => assert_eq!(error.message(), "协议错误: 分享列表响应无效"),
        Ok(_) => panic!(),
    }
    let entries = Payload::ListEntriesResponse(ListEntriesResponse {
        entries: vec![Entry {
            id: "e".to_owned(),
            display_name: "shown".to_owned(),
            raw_name: b"raw".to_vec(),
            relative_path: "a/shown".to_owned(),
            is_dir: true,
            size: 6,
            modified_ms: 7,
        }],
        has_more: true,
        next_offset: 1,
    });
    let list = remote_entries(entries).unwrap_or_else(|_| panic!());
    assert_eq!(list[0].name, "shown");
    assert_eq!(list[0].relative_path, "a/shown");
    assert_eq!((list[0].is_dir, list[0].size, list[0].modified_ms), (true, 6, 7));
    match remote_entries(pong()) {
        Err(error) => assert_eq!(error.message(), "协议错误: 目录列表响应无效"),
        Ok(_) => panic!(),
    }
}

fn manifest_file(index: usize) -> ManifestFile {
    ManifestFile {
        id: format!("{index:064x}"),
        relative_path: format!("folder/file-{index:05}.txt"),
        size: 12,
        modified_ms: 1,
        blake3: vec![1; 32],
        chunks: Vec::new(),
        is_dir: false,
    }
}

#[test]
fn pages_are_put_together() {
    let files = (0..8_000)
        .map(|index| SnapshotFile {
            absolute_path: String::new(),
            manifest: manifest_file(index),
        })
        .collect();
    let record = SnapshotRecord::new("snap".to_owned(), files);
    let (frames, sent) = send_snapshot_pages(&FrameHeader::new(FrameType::Control, 3, 9), &record);
    assert!(sent.is_ok());
    let count = frames.len();
    assert!(count > 1);
    let mut collector = SnapshotCollector::new();
    for (index, frame) in frames.into_iter().enumerate() {
        match collector.take(&Received::Frame(frame)) {
            CollectorEvent::More => assert!(index + 1 < count),
            CollectorEvent::Done(manifest) => {
                assert_eq!(index + 1, count);
                assert_eq!(manifest.snapshot_id, "snap");
                assert_eq!(manifest.files.len(), 8_000);
                assert_eq!(manifest.files[7_999].relative_path, "folder/file-07999.txt");
            }
            _ => panic!(),
        }
    }
    assert_eq!(snapshot_timeout_secs(0), 1800);
    assert_eq!(snapshot_timeout_secs(1), 300);
}

#[test]
fn snapshot_answers_that_are_refused() {
    let page = |snapshot_id: &str, error: &str| {
        Received::Frame(control(Payload::SnapshotManifestPage(SnapshotManifestPage {
            snapshot_id: snapshot_id.to_owned(),
            files: vec![manifest_file(1)],
            done: false,
            error: error.to_owned(),
        })))
    };
    let failure = |received: Received| match SnapshotCollector::new().take(&received) {
        CollectorEvent::Failed(error) => error.message(),
        _ => panic!(),
    };
    assert_eq!(failure(Received::Closed), "协议错误: 快照完成前连接关闭");
    assert_eq!(failure(Received::TimedOut), "协议错误: 快照准备长时间没有进度");
    assert_eq!(failure(page("a", "bad")), "协议错误: bad");
    assert_eq!(failure(Received::Frame(control(wire_error("no")))), "协议错误: no");
    assert_eq!(failure(Received::Frame(control(pong()))), "协议错误: 快照响应无效");
    let whole = |error: &str| {
        Received::Frame(control(Payload::SnapshotManifest(SnapshotManifest {
            snapshot_id: "w".to_owned(),
            files: vec![manifest_file(2)],
            error: error.to_owned(),
        })))
    };
    assert_eq!(failure(whole("broken")), "协议错误: broken");
    match SnapshotCollector::new().take(&whole("")) {
        CollectorEvent::Done(manifest) => assert_eq!(manifest.files.len(), 1),
        _ => panic!(),
    }
    let mut collector = SnapshotCollector::new();
    let progress = Payload::SnapshotProgress(SnapshotProgress {
        snapshot_id: "a".to_owned(),
        phase: "hashing".to_owned(),
        scanned_entries: 1,
        total_entries: 2,
        prepared_bytes: 3,
        total_bytes: 4,
        cache_hits: 5,
        current_path: "p".to_owned(),
        hash_workers: 6,
        speed_bps: 7,
    });
    match collector.take(&Received::Frame(control(progress))) {
        CollectorEvent::Progress(progress) => assert_eq!(progress.speed_bps, 7),
        _ => panic!(),
    }
    assert!(matches!(collector.take(&page("a", "")), CollectorEvent::More));
    match collector.take(&page("b", "")) {
        CollectorEvent::Failed(error) => {
            assert_eq!(error.message(), "协议错误: 快照分页 ID 不一致")
        }
        _ => panic!(),
    }
}

fn chunk_of(data: &[u8]) -> ChunkHash {
    ChunkHash {
        index: 3,
        offset: 100,
        length: data.len() as u32,
        blake3: blake3::hash(data).as_bytes().to_vec(),
    }
}

#[test]
fn chunks_arrive() {
    let data: Vec<u8> = (0..600_000u32).map(|n| n as u8).collect();
    let chunk = chunk_of(&data);
    let header = FrameHeader::new(FrameType::Control, 4, 5);
    let mut download = ChunkDownload::new();
    let mut start = 0usize;
    for block in data_blocks(100, data.len() as u32) {
        let body = data[start..start + block.length as usize].to_vec();
        start += block.length as usize;
        let frame = data_frame(&header, block.offset, block.sequence, body);
        assert!(matches!(download.take("f", &chunk, &frame), ChunkEvent::Write));
    }
    assert_eq!(download.received(), 600_000);
    let last = chunk_complete_frame(&header, "f".to_owned(), &chunk);
    match download.take("f", &chunk, &last) {
        ChunkEvent::Done(bytes) => assert_eq!(bytes, 600_000),
        _ => panic!(),
    }
}

#[test]
fn chunks_in_any_order_make_up_the_file() {
    let source: Vec<u8> = (0..900_000u32).map(|n| (n / 7) as u8).collect();
    let mut hasher = FileHasher::new(400_000);
    for block in source.chunks(400_000) {
        hasher.add_chunk(block);
    }
    let (_, chunks) = hasher.finish();
    assert_eq!(chunks.len(), 3);
    let header = FrameHeader::new(FrameType::Control, 4, 5);
    let mut partial = vec![0u8; source.len()];
    for chunk in chunks.iter().rev() {
        let mut download = ChunkDownload::new();
        for block in data_blocks(chunk.offset, chunk.length) {
            let start = block.offset as usize;
            let body = source[start..start + block.length].to_vec();
            let frame = data_frame(&header, block.offset, block.sequence, body);
            assert!(matches!(download.take("f", chunk, &frame), ChunkEvent::Write));
            let place = frame.header.file_offset as usize;
            partial[place..place + frame.body.len()].copy_from_slice(&frame.body);
        }
        let last = chunk_complete_frame(&header, "f".to_owned(), chunk);
        assert!(matches!(download.take("f", chunk, &last), ChunkEvent::Done(_)));
    }
    assert_eq!(partial, source);
}

#[test]
fn chunks_that_are_refused() {
    let data = b"chunk data".to_vec();
    let chunk = chunk_of(&data);
    let header = FrameHeader::new(FrameType::Control, 4, 5);
    let start = || {
        let mut download = ChunkDownload::new();
        download.take("f", &chunk, &data_frame(&header, 100, 0, data.clone()));
        download
    };
    let failure = |frame: Frame, mut download: ChunkDownload| {
        match download.take("f", &chunk, &frame) {
            ChunkEvent::Failed(error) => error.message(),
            _ => panic!(),
        }
    };
    let complete = |file_id: &str, chunk_index| {
        control(Payload::ChunkComplete(ChunkComplete {
            file_id: file_id.to_owned(),
            chunk_index,
            blake3: Vec::new(),
            bytes_sent: 0,
        }))
    };
    assert_eq!(failure(complete("g", 3), start()), "协议错误: 分片完成标记不匹配");
    assert_eq!(failure(complete("f", 4), start()), "协议错误: 分片完成标记不匹配");
    assert_eq!(
        failure(complete("f", 3), ChunkDownload::new()),
        "协议错误: 分片 BLAKE3 校验失败"
    );
    let mut twice = start();
    twice.take("f", &chunk, &data_frame(&header, 100, 0, data.clone()));
    assert_eq!(failure(complete("f", 3), twice), "协议错误: 分片 BLAKE3 校验失败");
    assert_eq!(failure(control(wire_error("no")), start()), "协议错误: no");
    assert_eq!(failure(frame_of(FrameType::Error, wire_error("no")), start()), "协议错误: no");
    assert_eq!(failure(control(pong()), start()), "协议错误: 分片响应无效");
    assert!(matches!(
        start().take("f", &chunk, &frame_of(FrameType::Error, pong())),
        ChunkEvent::Ignore
    ));
    assert_eq!(chunk_cut_off().message(), "协议错误: 分片传输意外结束");
}
