use lanflow::message::{decode, encode, encoded_len};
use lanflow::protocol::{decode_envelope, encode_envelope, envelope};
use lanflow::wire::envelope::{Envelope, Payload};
use lanflow::wire::listing::{Entry, ListEntriesResponse, ListSharesRequest, ListSharesResponse, ShareInfo};
use lanflow::wire::session::{AuthResult, Hello};
use lanflow::wire::snapshot::{ChunkHash, CreateSnapshotRequest, ManifestFile, SnapshotManifestPage};
use lanflow::wire::transfer::{Error, Ping, SmallFileBatchRequest};

fn hello() -> Hello {
    Hello {
        device_id: "d".to_owned(),
        device_name: "名".to_owned(),
        min_major: 1,
        max_major: 1,
        max_minor: 0,
        features: 300,
        max_frame_size: 1 << 20,
        max_concurrent_streams: 16,
    }
}

#[test]
fn hello_bytes() {
    let bytes = encode_envelope(&envelope(Payload::Hello(hello()))).unwrap();
    let body: &[u8] = &[
        0x0a, 1, b'd', // device_id
        0x12, 3, 0xe5, 0x90, 0x8d, // device_name
        0x18, 1, // min_major
        0x20, 1, // max_major
        0x30, 0xac, 0x02, // features
        0x38, 0x80, 0x80, 0x40, // max_frame_size
        0x40, 16, // max_concurrent_streams
    ];
    let mut expected = vec![0x0a, body.len() as u8];
    expected.extend_from_slice(body);
    assert_eq!(bytes, expected);
}

#[test]
fn hello_roundtrip() {
    let bytes = encode_envelope(&envelope(Payload::Hello(hello()))).unwrap();
    match decode_envelope(&bytes).unwrap().payload {
        Some(Payload::Hello(read)) => {
            assert_eq!(read.device_id, "d");
            assert_eq!(read.device_name, "名");
            assert_eq!(read.max_minor, 0);
            assert_eq!(read.features, 300);
            assert_eq!(read.max_frame_size, 1 << 20);
        }
        _ => panic!(),
    }
}

#[test]
fn nested_lists_roundtrip() {
    let page = SnapshotManifestPage {
        snapshot_id: "s".to_owned(),
        files: vec![
            ManifestFile {
                id: "a".to_owned(),
                relative_path: "x/a".to_owned(),
                size: 10,
                modified_ms: -5,
                blake3: vec![1; 32],
                chunks: vec![
                    ChunkHash { index: 0, offset: 0, length: 6, blake3: vec![2; 32] },
                    ChunkHash { index: 1, offset: 6, length: 4, blake3: vec![3; 32] },
                ],
                is_dir: false,
            },
            ManifestFile {
                id: String::new(),
                relative_path: String::new(),
                size: 0,
                modified_ms: 0,
                blake3: Vec::new(),
                chunks: Vec::new(),
                is_dir: true,
            },
        ],
        done: true,
        error: String::new(),
    };
    let first_len = encoded_len(&page.files[0]);
    assert_eq!(first_len, encode(&page.files[0]).len());
    let bytes = encode(&page);
    let read: SnapshotManifestPage = decode(&bytes).unwrap();
    assert_eq!(read.files.len(), 2);
    assert_eq!(read.files[0].modified_ms, -5);
    assert_eq!(read.files[0].chunks.len(), 2);
    assert_eq!(read.files[0].chunks[1].offset, 6);
    assert_eq!(read.files[0].chunks[1].blake3, vec![3; 32]);
    assert!(read.files[1].is_dir);
    assert!(read.done);
    assert_eq!(encode(&read), bytes);
}

#[test]
fn repeated_texts_and_empty_messages() {
    let request = CreateSnapshotRequest {
        share_id: "s".to_owned(),
        relative_paths: vec!["a".to_owned(), String::new(), "b".to_owned()],
        chunk_size: 0,
    };
    let bytes = encode(&request);
    assert_eq!(bytes, vec![0x0a, 1, b's', 0x12, 1, b'a', 0x12, 0, 0x12, 1, b'b']);
    let read: CreateSnapshotRequest = decode(&bytes).unwrap();
    assert_eq!(read.relative_paths, vec!["a".to_owned(), String::new(), "b".to_owned()]);
    assert_eq!(encode(&ListSharesRequest {}), Vec::<u8>::new());
    let nothing = encode_envelope(&Envelope { payload: None }).unwrap();
    assert!(nothing.is_empty());
    assert!(decode_envelope(&nothing).unwrap().payload.is_none());
}

#[test]
fn last_value_counts_and_lists_add_up() {
    // Both fields come twice.
    let bytes = [0x0a, 1, b'x', 0x0a, 1, b'y', 0x12, 1, b'1', 0x12, 1, b'2'];
    let read: SmallFileBatchRequest = decode(&bytes).unwrap();
    assert_eq!(read.snapshot_id, "y");
    assert_eq!(read.file_ids, vec!["1".to_owned(), "2".to_owned()]);
}

#[test]
fn unknown_fields_are_passed_over() {
    let mut bytes = Vec::new();
    bytes.extend_from_slice(&[0xfa, 0x01, 2, 9, 9]); // tag 31, two bytes
    bytes.extend_from_slice(&[0xf8, 0x01, 7]); // tag 31, a number
    bytes.extend_from_slice(&[0xf9, 0x01, 1, 2, 3, 4, 5, 6, 7, 8]); // tag 31, eight bytes
    bytes.extend_from_slice(&[0xfd, 0x01, 1, 2, 3, 4]); // tag 31, four bytes
    bytes.extend_from_slice(&[0xfb, 0x01, 0x08, 1, 0xfc, 0x01]); // tag 31, a group
    bytes.extend_from_slice(&[0x08, 0x2a]);
    let read: Ping = decode(&bytes).unwrap();
    assert_eq!(read.timestamp_ms, 42);
}

#[test]
fn same_message_twice_is_merged() {
    let a = encode(&Error { code: 5, message: "a".to_owned(), retryable: false });
    let b = encode(&Error { code: 0, message: "b".to_owned(), retryable: true });
    let mut bytes = vec![0xc2, 0x01, a.len() as u8];
    bytes.extend_from_slice(&a);
    bytes.extend_from_slice(&[0xc2, 0x01, b.len() as u8]);
    bytes.extend_from_slice(&b);
    match decode_envelope(&bytes).unwrap().payload {
        Some(Payload::Error(error)) => {
            assert_eq!(error.code, 5);
            assert_eq!(error.message, "b");
            assert!(error.retryable);
        }
        _ => panic!(),
    }
}

#[test]
fn another_message_takes_the_place() {
    let mut bytes = encode_envelope(&envelope(Payload::Hello(hello()))).unwrap();
    let ping = encode_envelope(&envelope(Payload::Ping(Ping { timestamp_ms: -1 }))).unwrap();
    bytes.extend_from_slice(&ping);
    match decode_envelope(&bytes).unwrap().payload {
        Some(Payload::Ping(ping)) => assert_eq!(ping.timestamp_ms, -1),
        _ => panic!(),
    }
}

#[test]
fn broken_bytes_are_refused() {
    let broken: [&[u8]; 8] = [
        &[0x0a],                   // a key without a value
        &[0x0a, 5, 1],             // too short
        &[0x08, 1],                // the wrong kind for a message
        &[0x02, 0],                // tag zero
        &[0x0e, 0],                // no such kind
        &[0x0a, 3, 0x0a, 1, 0xff], // text that is not UTF-8
        &[0x80, 0x80, 0x80, 0x80, 0x80, 0x80, 0x80, 0x80, 0x80, 0x02], // too large a number
        &[0xfc, 0x01],             // the end of no group
    ];
    for bytes in broken {
        let error = decode_envelope(bytes).unwrap_err();
        assert!(error.message().starts_with("协议错误: failed to decode Protobuf message"));
    }
}

#[test]
fn numbers_are_cut_to_their_width() {
    // `enabled` holds two, `next_offset` holds 2^32 + 3.
    let share: ShareInfo = decode(&[0x18, 2]).unwrap();
    assert!(share.enabled);
    let page: ListEntriesResponse = decode(&[0x18, 0x83, 0x80, 0x80, 0x80, 0x10]).unwrap();
    assert_eq!(page.next_offset, 3);
}

#[test]
fn lists_of_messages() {
    let list = ListSharesResponse {
        shares: vec![
            ShareInfo { id: "1".to_owned(), name: "a".to_owned(), enabled: true },
            ShareInfo { id: "2".to_owned(), name: "b".to_owned(), enabled: false },
        ],
    };
    let read: ListSharesResponse = decode(&encode(&list)).unwrap();
    assert_eq!(read.shares.len(), 2);
    assert_eq!(read.shares[1].name, "b");
    let entries = ListEntriesResponse {
        entries: vec![Entry {
            id: "i".to_owned(),
            raw_name: vec![0xff, 0],
            display_name: "n".to_owned(),
            relative_path: "p/n".to_owned(),
            is_dir: false,
            size: u64::MAX,
            modified_ms: i64::MIN,
        }],
        has_more: true,
        next_offset: u32::MAX,
    };
    let read: ListEntriesResponse = decode(&encode(&entries)).unwrap();
    assert_eq!(read.entries[0].raw_name, vec![0xff, 0]);
    assert_eq!(read.entries[0].size, u64::MAX);
    assert_eq!(read.entries[0].modified_ms, i64::MIN);
    assert_eq!(read.next_offset, u32::MAX);
    let result = AuthResult {
        success: true,
        session_id: "s".to_owned(),
        server_proof: vec![1, 2],
        error: String::new(),
    };
    let read: AuthResult = decode(&encode(&result)).unwrap();
    assert!(read.success);
    assert_eq!(read.server_proof, vec![1, 2]);
}

fn groups(count: usize) -> Vec<u8> {
    let mut bytes = [0xf3, 0x01].repeat(count);
    bytes.extend([0xf4, 0x01].repeat(count));
    bytes
}

fn with_length(data: Vec<u8>) -> Vec<u8> {
    let mut bytes = Vec::new();
    let mut n = data.len();
    while n >= 128 {
        bytes.push((n % 128 + 128) as u8);
        n /= 128;
    }
    bytes.push(n as u8);
    bytes.extend(data);
    bytes
}

#[test]
fn messages_and_groups_nest_to_one_limit() {
    let top = |count| decode_envelope(&groups(count)).is_ok();
    assert!(top(100));
    assert!(!top(101));
    let ping = encode_envelope(&envelope(Payload::Ping(Ping { timestamp_ms: 1 }))).unwrap();
    let key = ping[..ping.len() - 3].to_vec();
    let inner = |count| {
        let mut bytes = key.clone();
        bytes.extend(with_length(groups(count)));
        decode_envelope(&bytes).is_ok()
    };
    assert!(inner(99));
    assert!(!inner(100));
    let share = ShareInfo { id: String::new(), name: String::new(), enabled: false };
    let shares = Payload::ListSharesResponse(ListSharesResponse { shares: vec![share] });
    let list = encode_envelope(&envelope(shares)).unwrap();
    let list_key = list[..list.len() - 3].to_vec();
    let deep = |count| {
        let mut item = vec![list[list.len() - 2]];
        item.extend(with_length(groups(count)));
        let mut bytes = list_key.clone();
        bytes.extend(with_length(item));
        decode_envelope(&bytes).is_ok()
    };
    assert!(deep(98));
    assert!(!deep(99));
}
