use lanflow::error::LanFlowError;
use lanflow::message::decode;
use lanflow::models::{ConflictPolicy, PerformanceSettings, TaskDto};
use lanflow::tasks::{
    bit_is_set, check_chunk, choose_target, clear_bit, empty_bitmap, failure_event,
    file_hash_matches, is_blank, keep_both_fallback, keep_both_path, manifest_text,
    manifest_totals, missing_chunks, partial_path, partial_root, pick_connection, progress_event,
    removes_old, resume_bitmap, set_bit, split_ms, transfer_limits, validate_completed_chunks,
    whole_file_error, ActiveTasks, ChunkCheck, ChunkResults, ChunkRetry, Completion,
    ContentHasher, NameSearch, NameStep, RetryStep, TargetChoice,
};
use lanflow::wire::snapshot::{ChunkHash, ManifestFile, SnapshotManifest};

fn chunk(index: u32, offset: u64, data: &[u8]) -> ChunkHash {
    ChunkHash {
        index,
        offset,
        length: data.len() as u32,
        blake3: blake3::hash(data).as_bytes().to_vec(),
    }
}

fn file(size: u64, is_dir: bool, chunks: Vec<ChunkHash>) -> ManifestFile {
    ManifestFile {
        id: "id".to_owned(),
        relative_path: "a/b".to_owned(),
        size,
        modified_ms: 0,
        blake3: vec![7; 32],
        chunks,
        is_dir,
    }
}

#[test]
fn resume_validation_clears_only_corrupt_chunks() {
    let first = vec![7u8; 1024];
    let second = vec![11u8; 1024];
    let mut contents = first.clone();
    contents.extend_from_slice(&second);
    let chunks = vec![
        ChunkHash {
            index: 0,
            offset: 0,
            length: first.len() as u32,
            blake3: blake3::hash(&first).as_bytes().to_vec(),
        },
        ChunkHash {
            index: 1,
            offset: first.len() as u64,
            length: second.len() as u32,
            blake3: blake3::hash(b"corrupt expected data").as_bytes().to_vec(),
        },
    ];
    let validated = validate_completed_chunks(&contents, &chunks, vec![0b11]).unwrap();
    assert!(bit_is_set(&validated, 0));
    assert!(!bit_is_set(&validated, 1));
}

#[test]
fn a_marked_chunk_beyond_the_file_is_an_error() {
    let chunks = vec![chunk(0, 0, b"abcd"), chunk(1, 4, b"efgh")];
    assert!(validate_completed_chunks(b"abcdef", &chunks, vec![0b10]).is_err());
    assert_eq!(validate_completed_chunks(b"abcdef", &chunks, vec![0b01]).unwrap(), vec![1]);
    assert_eq!(
        validate_completed_chunks(b"abcdef", &chunks, Vec::new()).unwrap(),
        Vec::<u8>::new()
    );
}

#[test]
fn bits() {
    let mut bitmap = empty_bitmap(9);
    assert_eq!(bitmap, vec![0, 0]);
    assert!(is_blank(&bitmap));
    set_bit(&mut bitmap, 3);
    set_bit(&mut bitmap, 20);
    assert_eq!(bitmap, vec![8, 0, 16]);
    assert!(!is_blank(&bitmap));
    assert!(bit_is_set(&bitmap, 3));
    assert!(!bit_is_set(&bitmap, 4));
    assert!(!bit_is_set(&bitmap, 100));
    clear_bit(&mut bitmap, 3);
    clear_bit(&mut bitmap, 500);
    assert_eq!(bitmap, vec![0, 0, 16]);
    assert_eq!(empty_bitmap(0), Vec::<u8>::new());
    assert_eq!(empty_bitmap(8).len(), 1);
}

#[test]
fn partial_files_are_used_only_when_whole() {
    assert_eq!(resume_bitmap(vec![3], Some(10), 10), (vec![3], true));
    assert_eq!(resume_bitmap(vec![3], Some(9), 10), (vec![0], false));
    assert_eq!(resume_bitmap(vec![3, 1], None, 10), (vec![0, 0], false));
    assert_eq!(resume_bitmap(vec![0], Some(10), 10), (vec![0], false));
}

#[test]
fn contents_are_compared_by_hash() {
    let mut hasher = ContentHasher::new();
    hasher.add(b"abc");
    hasher.add(b"def");
    let digest = blake3::hash(b"abcdef").as_bytes().to_vec();
    assert_eq!(hasher.finish(), digest);
    assert!(file_hash_matches(&digest, Some(&hasher)));
    assert!(!file_hash_matches(&digest[..31], Some(&hasher)));
    assert!(!file_hash_matches(&[0; 32], Some(&hasher)));
    assert!(!file_hash_matches(&digest, None));
    let mut bitmap = vec![0b11];
    check_chunk(&mut bitmap, &chunk(0, 0, b"abc"), b"abc");
    check_chunk(&mut bitmap, &chunk(1, 0, b"abc"), b"abd");
    assert_eq!(bitmap, vec![0b01]);
}

#[test]
fn totals_of_a_manifest() {
    let files = vec![
        file(10, false, Vec::new()),
        file(5, true, Vec::new()),
        file(7, false, Vec::new()),
    ];
    assert_eq!(manifest_totals(&files), Some((22, 2)));
    let large = vec![file(u64::MAX, false, Vec::new()), file(1, false, Vec::new())];
    assert_eq!(manifest_totals(&large), None);
    assert_eq!(manifest_totals(&Vec::new()), Some((0, 0)));
}

#[test]
fn manifests_are_stored_as_text() {
    let manifest = SnapshotManifest {
        snapshot_id: "s".to_owned(),
        files: vec![file(4, false, vec![chunk(0, 0, b"abcd")])],
        error: String::new(),
    };
    let stored = manifest_text(&manifest);
    let bytes = base64::Engine::decode(&base64::engine::general_purpose::STANDARD, &stored).unwrap();
    let back: SnapshotManifest = decode(&bytes).unwrap();
    assert_eq!(back.snapshot_id, "s");
    assert_eq!(back.files[0].chunks[0].length, 4);
    let empty = SnapshotManifest {
        snapshot_id: "A".to_owned(),
        files: Vec::new(),
        error: String::new(),
    };
    assert_eq!(manifest_text(&empty), "CgFB");
}

#[test]
fn limits_follow_the_settings() {
    let limits = |data_connections, streams_per_connection| {
        let settings = PerformanceSettings {
            data_connections,
            streams_per_connection,
            ..PerformanceSettings::default()
        };
        let limits = transfer_limits(&settings);
        (limits.connections, limits.streams, limits.files)
    };
    assert_eq!(limits(2, 4), (2, 8, 16));
    assert_eq!(limits(0, 0), (1, 1, 4));
    assert_eq!(limits(255, 255), (8, 128, 64));
    assert_eq!(pick_connection(7, 3), 1);
}

#[test]
fn a_task_runs_once() {
    let mut tasks = ActiveTasks::new();
    assert!(tasks.check_idle("a").is_ok());
    tasks.insert("a");
    assert_eq!(tasks.check_idle("a").unwrap_err().message(), "输入无效: 任务已在运行");
    assert!(tasks.check_idle("b").is_ok());
    assert!(tasks.remove("a"));
    assert!(!tasks.remove("a"));
    assert!(tasks.check_idle("a").is_ok());
}

#[test]
fn partial_files_have_their_place() {
    assert_eq!(partial_root("/d", "task"), "/d/.lanflow-partials/task");
    assert_eq!(partial_path("/d/p", "file"), "/d/p/file.part");
}

#[test]
fn targets() {
    let choice = |exists, same, policy| match choose_target(exists, same, policy) {
        TargetChoice::Present => 0,
        TargetChoice::Skip => 1,
        TargetChoice::KeepBoth => 2,
        TargetChoice::Write => 3,
    };
    for policy in [ConflictPolicy::KeepBoth, ConflictPolicy::Overwrite, ConflictPolicy::Skip] {
        assert_eq!(choice(true, true, policy.clone()), 0);
        assert_eq!(choice(false, false, policy), 3);
    }
    assert_eq!(choice(true, false, ConflictPolicy::Skip), 1);
    assert_eq!(choice(true, false, ConflictPolicy::KeepBoth), 2);
    assert_eq!(choice(true, false, ConflictPolicy::Overwrite), 3);
    assert!(removes_old(true, ConflictPolicy::Overwrite));
    assert!(!removes_old(false, ConflictPolicy::Overwrite));
    assert!(!removes_old(true, ConflictPolicy::Skip));
}

#[test]
fn unmarked_chunks_are_fetched() {
    let chunks = vec![chunk(0, 0, b"ab"), chunk(1, 2, b"cde"), chunk(2, 5, b"f")];
    assert_eq!(missing_chunks(&chunks, &[0b010]), (vec![0, 2], 3));
    assert_eq!(missing_chunks(&chunks, &[]), (vec![0, 1, 2], 0));
    assert_eq!(missing_chunks(&chunks, &[0b111]), (Vec::new(), 6));
}

#[test]
fn chunks_are_tried_again() {
    let mut retry = ChunkRetry::new();
    let mut waits = Vec::new();
    let mut tries = 0;
    while retry.may_try() {
        tries += 1;
        match retry.failed(LanFlowError::Protocol(format!("try {tries}"))) {
            RetryStep::Wait(ms) => waits.push(ms),
            RetryStep::Stop(_) => panic!(),
        }
    }
    assert_eq!(waits, vec![250, 500, 1000]);
    assert_eq!(retry.into_error().message(), "协议错误: try 3");
    let mut cancelled = ChunkRetry::new();
    assert!(matches!(
        cancelled.failed(LanFlowError::Cancelled),
        RetryStep::Stop(LanFlowError::Cancelled)
    ));
    assert_eq!(ChunkRetry::new().into_error().message(), "协议错误: 分片重试失败");
}

#[test]
fn the_first_failure_counts() {
    let mut results = ChunkResults::new();
    assert!(!results.needs_checkpoint(2));
    results.succeed(4);
    results.fail(LanFlowError::Protocol("one".to_owned()));
    results.fail(LanFlowError::Protocol("two".to_owned()));
    results.succeed(1);
    assert_eq!(results.completed, vec![4, 1]);
    assert!(results.needs_checkpoint(2));
    assert!(!results.needs_checkpoint(1));
    assert_eq!(results.first_error.unwrap().message(), "协议错误: one");
}

#[test]
fn wrong_files_are_named() {
    let one = file(4, false, vec![chunk(0, 0, b"abcd")]);
    assert_eq!(whole_file_error(&one).message(), "协议错误: a/b 整文件校验失败");
}

#[test]
fn times_are_split() {
    assert_eq!(split_ms(1_234), (1, 234_000_000));
    assert_eq!(split_ms(-1), (-1, 999_000_000));
    assert_eq!(split_ms(0), (0, 0));
    assert_eq!(split_ms(i64::MIN), (i64::MIN.div_euclid(1000), 192_000_000));
}

#[test]
fn names_beside_a_file() {
    assert_eq!(keep_both_path("/d/a.tar.gz", 1), "/d/a.tar (LanFlow 1).gz");
    assert_eq!(keep_both_path("/d/name", 12), "/d/name (LanFlow 12)");
    assert_eq!(keep_both_path("/d/.hidden", 2), "/d/.hidden (LanFlow 2)");
    assert_eq!(keep_both_path("plain.txt", 9_999), "plain (LanFlow 9999).txt");
    assert_eq!(keep_both_fallback("/d/a.txt", "u"), "/d/a (LanFlow u)");
    assert_eq!(keep_both_path("/d/a.txt/", 1), "/d/a (LanFlow 1).txt");
    assert_eq!(keep_both_path("/d//a.txt/./", 1), "/d/a (LanFlow 1).txt");
    assert_eq!(keep_both_path("/d/./a", 1), "/d/a (LanFlow 1)");
    assert_eq!(keep_both_path("./a", 1), "./a (LanFlow 1)");
    assert_eq!(keep_both_path("/a", 1), "/a (LanFlow 1)");
    assert_eq!(keep_both_path("..", 1), "file (LanFlow 1)");
    assert_eq!(keep_both_path("/d/..", 1), "/d/file (LanFlow 1)");
    assert_eq!(keep_both_path(".", 1), "file (LanFlow 1)");
    assert_eq!(keep_both_path("/", 1), "file (LanFlow 1)");
    assert_eq!(keep_both_path("", 1), "file (LanFlow 1)");
    assert_eq!(keep_both_path("/d/a.", 1), "/d/a (LanFlow 1).");
    assert_eq!(keep_both_path("/d/..a", 1), "/d/. (LanFlow 1).a");
    assert_eq!(keep_both_fallback("/d/..", "u"), "/d/file (LanFlow u)");
    assert_ne!(keep_both_path("/d/a.txt", 1), keep_both_path("/d/a.txt", 11));
}

#[test]
fn the_least_free_name_is_found() {
    let taken = ["/d/a (LanFlow 1).txt", "/d/a (LanFlow 2).txt", "/d/a (LanFlow 4).txt"];
    let (mut search, first) = NameSearch::start("/d/a.txt".to_owned());
    let mut candidate = first;
    let name = loop {
        match search.step(taken.contains(&candidate.as_str())) {
            NameStep::Found(name) => break name,
            NameStep::Try(next) => candidate = next,
            NameStep::GiveUp => panic!(),
        }
    };
    assert_eq!(name, "/d/a (LanFlow 3).txt");
    let (mut full, _) = NameSearch::start("/d/a".to_owned());
    for number in 2..=9_999u64 {
        match full.step(true) {
            NameStep::Try(next) => assert_eq!(next, keep_both_path("/d/a", number)),
            _ => panic!(),
        }
    }
    assert!(matches!(full.step(true), NameStep::GiveUp));
}

#[test]
fn chunks_are_checked_one_by_one() {
    let chunks = vec![chunk(0, 0, b"abc"), chunk(1, 3, b"de"), chunk(2, 5, b"f")];
    let mut check = ChunkCheck::new(chunks, vec![0b110]);
    assert_eq!(check.seek(), Some((3, 2)));
    check.take(b"dx");
    assert_eq!(check.seek(), Some((5, 1)));
    check.take(b"f");
    assert_eq!(check.seek(), None);
    assert_eq!(check.finish(), vec![0b100]);
}

#[test]
fn marks_settle() {
    let mut once = vec![1u8];
    set_bit(&mut once, 12);
    let mut twice = once.clone();
    set_bit(&mut twice, 12);
    assert_eq!(once, twice);
    let mut other = vec![1u8];
    set_bit(&mut other, 30);
    set_bit(&mut other, 12);
    set_bit(&mut once, 30);
    assert_eq!(once, other);
}

#[test]
fn finished_files_are_batched() {
    let mut completion = Completion::new();
    for n in 0..255 {
        assert!(!completion.finish_file(format!("{n}"), format!("p{n}")));
    }
    assert!(completion.finish_file("255".to_owned(), "last".to_owned()));
    assert_eq!(completion.completed_files, 256);
    assert_eq!(completion.current_file, "last");
    assert_eq!(completion.take_pending().len(), 256);
    assert!(completion.take_pending().is_empty());
    assert_eq!(completion.completed_files, 256);
}

#[test]
fn events() {
    let event = progress_event("t", "downloading", 1, 2, 3, 4, 5, "f");
    assert_eq!(event.task_id, "t");
    assert_eq!(event.status, "downloading");
    assert_eq!((event.completed_bytes, event.total_bytes, event.speed_bps), (1, 2, 3));
    assert_eq!((event.completed_files, event.file_count), (4, 5));
    assert_eq!(event.current_file, "f");
    let task = TaskDto {
        id: "id".to_owned(),
        peer_id: "p".to_owned(),
        peer_name: "n".to_owned(),
        share_id: "s".to_owned(),
        destination: "/d".to_owned(),
        status: "downloading".to_owned(),
        total_bytes: 10,
        completed_bytes: 3,
        speed_bps: 8,
        file_count: 2,
        completed_files: 1,
        error: None,
        created_at: 0,
        updated_at: 0,
    };
    let event = failure_event(&task, &LanFlowError::NotFound("x".to_owned()));
    assert_eq!(event.status, "failed");
    assert_eq!((event.completed_bytes, event.total_bytes, event.speed_bps), (3, 10, 0));
    assert_eq!(event.current_file, "未找到: x");
}
