use std::collections::HashMap;

use lanflow::frame::{FrameHeader, FrameType, FLAG_MORE};
use lanflow::listing::FileKind;
use lanflow::paging::send_snapshot_pages;
use lanflow::protocol::{decode_envelope, MAX_FRAME_SIZE};
use lanflow::snapshot::{
    begin_file, cache_matches, clamp_chunk_size, create_snapshot, epoch_ms, finish_file,
    hash_cache_key, normalize_slashes, plan_paths, plan_work, resolve_hash_workers,
    scanned_path, scanning_progress, BuiltFile, FileHasher, FileStep, HashCacheEntry,
    HashProgress, ScannedPath, SnapshotFile, SnapshotRecord, WorkItem,
};
use lanflow::wire::envelope::Payload;
use lanflow::wire::snapshot::{ChunkHash, ManifestFile};

const MIB: usize = 1024 * 1024;

fn hash(data: &[u8], chunk_size: usize) -> (Vec<u8>, Vec<ChunkHash>) {
    let mut hasher = FileHasher::new(chunk_size);
    for block in data.chunks(chunk_size) {
        hasher.add_chunk(block);
    }
    hasher.finish()
}

fn item(path: &str, kind: FileKind, size: u64) -> WorkItem {
    WorkItem {
        relative_path: path.to_owned(),
        absolute_path: format!("/root/{}", path),
        kind,
        size,
        modified_ms: 77,
    }
}

fn build(
    items: Vec<(WorkItem, Vec<u8>)>,
    cache: &HashMap<String, HashCacheEntry>,
    progress: &mut HashProgress,
) -> (SnapshotRecord, Vec<(String, HashCacheEntry)>) {
    let mut built = Vec::new();
    for (item, data) in items {
        let key = hash_cache_key("/root", &item.relative_path);
        match begin_file(&item, cache.get(&key), MIB).unwrap() {
            FileStep::Ready(file, hit) => {
                if hit {
                    progress.add(item.size, true);
                }
                built.push(BuiltFile { file, update: None });
            }
            FileStep::Hash => {
                let (full, chunks) = hash(&data, MIB);
                progress.add(item.size, false);
                let size = item.size;
                built.push(finish_file(&item, key, full, chunks, size, 77).unwrap());
            }
        }
    }
    create_snapshot("snap".to_owned(), built)
}

#[test]
fn snapshot_reuses_valid_hash_cache() {
    let contents = vec![7u8; 2 * 1024 * 1024];
    let items = || {
        vec![
            (item("folder", FileKind::Directory, 4096), Vec::new()),
            (item("folder/payload.bin", FileKind::File, contents.len() as u64), contents.clone()),
        ]
    };
    let mut progress = HashProgress::new(2, contents.len() as u64, 4);
    let (first, updates) = build(items(), &HashMap::new(), &mut progress);
    assert_eq!(first.files.iter().filter(|file| !file.manifest.is_dir).count(), 1);
    assert_eq!(updates.len(), 1);

    let cache = updates.into_iter().collect::<HashMap<_, _>>();
    let mut progress = HashProgress::new(2, contents.len() as u64, 4);
    let (second, second_updates) = build(items(), &cache, &mut progress);
    assert!(second_updates.is_empty());
    assert_eq!(progress.report("snap", "", 0).cache_hits, 1);
    assert_eq!(progress.hashed_bytes, 0);
    assert_eq!(second.files[1].manifest.blake3, first.files[1].manifest.blake3);
}

#[test]
fn files_are_hashed_in_chunks() {
    let data: Vec<u8> = (0..25u8).collect();
    let (full, chunks) = hash(&data, 10);
    assert_eq!(full, blake3::hash(&data).as_bytes().to_vec());
    assert_eq!(chunks.len(), 3);
    for (i, chunk) in chunks.iter().enumerate() {
        assert_eq!(chunk.index as usize, i);
        assert_eq!(chunk.offset as usize, 10 * i);
        assert_eq!(chunk.length as usize, if i == 2 { 5 } else { 10 });
        let end = (10 * i + 10).min(25);
        assert_eq!(chunk.blake3, blake3::hash(&data[10 * i..end]).as_bytes().to_vec());
    }
    let (empty, none) = hash(&[], 10);
    assert_eq!(empty, blake3::hash(b"").as_bytes().to_vec());
    assert!(none.is_empty());
}

#[test]
fn stored_hashes_have_to_fit() {
    let data = vec![1u8; 25];
    let entry = |f: &dyn Fn(&mut HashCacheEntry)| {
        let (full_hash, chunks) = hash(&data, 10);
        let mut entry = HashCacheEntry { size: 25, modified_ms: 3, full_hash, chunks };
        f(&mut entry);
        cache_matches(&entry, 25, 3, 10)
    };
    assert!(entry(&|_| {}));
    assert!(!entry(&|e| e.size = 24));
    assert!(!entry(&|e| e.modified_ms = 4));
    assert!(!entry(&|e| e.full_hash.truncate(31)));
    assert!(!entry(&|e| e.chunks[1].index = 2));
    assert!(!entry(&|e| e.chunks[1].offset = 11));
    assert!(!entry(&|e| e.chunks[1].blake3.push(0)));
    assert!(!entry(&|e| e.chunks[2].length = 0));
    assert!(!entry(&|e| e.chunks[0].length = 9));
    assert!(!entry(&|e| e.chunks.truncate(2)));
    assert!(!entry(&|e| e.chunks.clear()));
    let (full_hash, chunks) = hash(&data, 10);
    let whole = HashCacheEntry { size: 25, modified_ms: 3, full_hash, chunks };
    assert!(!cache_matches(&whole, 25, 3, 5));
    let one = HashCacheEntry {
        size: 10,
        modified_ms: 1,
        full_hash: vec![1; 32],
        chunks: vec![ChunkHash { index: 0, offset: 0, length: 10, blake3: vec![2; 32] }],
    };
    assert!(!cache_matches(&one, 10, 1, 4));
    assert!(cache_matches(&one, 10, 1, 10));
    assert!(cache_matches(&one, 10, 1, 11));
    let (full_hash, chunks) = hash(&[], 10);
    let empty = HashCacheEntry { size: 0, modified_ms: 3, full_hash, chunks };
    assert!(cache_matches(&empty, 0, 3, 10));
}

#[test]
fn cache_keys_are_over_root_and_path() {
    let expected = blake3::hash(b"/a\0b/c").to_hex().to_string();
    assert_eq!(hash_cache_key("/a", "b/c"), expected);
    assert_ne!(hash_cache_key("/ab", "/c"), hash_cache_key("/a", "b/c"));
}

#[test]
fn bounds() {
    assert_eq!(clamp_chunk_size(0), MIB);
    assert_eq!(clamp_chunk_size(u32::MAX), 64 * MIB);
    assert_eq!(clamp_chunk_size(5 * MIB as u32), 5 * MIB);
    assert_eq!(resolve_hash_workers(1, Some(8)), 1);
    assert_eq!(resolve_hash_workers(200, None), 32);
    assert_eq!(resolve_hash_workers(0, None), 4);
    assert_eq!(resolve_hash_workers(0, Some(1)), 2);
    assert_eq!(resolve_hash_workers(0, Some(12)), 12);
    assert_eq!(resolve_hash_workers(0, Some(64)), 16);
    assert_eq!(epoch_ms(Some(1234)), 1234);
    assert_eq!(epoch_ms(None), 0);
    assert_eq!(normalize_slashes("a\\b/c"), "a/b/c");
}

#[test]
fn scanned_paths_are_relative() {
    assert_eq!(scanned_path("/r", "/r/a/b", FileKind::File).unwrap().unwrap(), "a/b");
    assert_eq!(scanned_path("/r", "/r", FileKind::Directory).unwrap().unwrap(), "");
    assert_eq!(scanned_path("/r", "/r/a\\b", FileKind::File).unwrap().unwrap(), "a/b");
    assert!(scanned_path("/r", "/r/a", FileKind::Symlink).unwrap().is_none());
    assert!(scanned_path("/r", "/x", FileKind::Other).unwrap().is_none());
    assert_eq!(
        scanned_path("/r", "/x/a", FileKind::File).unwrap_err().message(),
        "输入无效: 扫描路径越界"
    );
}

#[test]
fn each_path_is_planned_once() {
    let list: Vec<ScannedPath> = [("b", "1"), ("a", "2"), ("b", "3"), ("a/c", "4"), ("B", "5")]
        .iter()
        .map(|(relative, absolute)| ScannedPath {
            relative_path: relative.to_string(),
            absolute_path: absolute.to_string(),
        })
        .collect();
    let plan: Vec<(String, String)> = plan_paths(&list)
        .into_iter()
        .map(|path| (path.relative_path, path.absolute_path))
        .collect();
    let expected: Vec<(String, String)> = [("B", "5"), ("a", "2"), ("a/c", "4"), ("b", "3")]
        .iter()
        .map(|(r, a)| (r.to_string(), a.to_string()))
        .collect();
    assert_eq!(plan, expected);
    assert!(plan_paths(&Vec::new()).is_empty());
}

#[test]
fn work_leaves_links_out() {
    let (work, total) = plan_work(vec![
        item("a", FileKind::File, 10),
        item("l", FileKind::Symlink, 99),
        item("d", FileKind::Directory, 50),
        item("b", FileKind::File, 7),
    ]);
    let paths: Vec<&str> = work.iter().map(|w| w.relative_path.as_str()).collect();
    assert_eq!(paths, vec!["a", "d", "b"]);
    assert_eq!(total, 17);
    let (_, large) = plan_work(vec![
        item("a", FileKind::File, u64::MAX),
        item("b", FileKind::File, 7),
    ]);
    assert_eq!(large, u64::MAX);
}

#[test]
fn entries_of_a_snapshot() {
    match begin_file(&item("d", FileKind::Directory, 4096), None, MIB).unwrap() {
        FileStep::Ready(file, hit) => {
            assert!(!hit);
            assert!(file.manifest.is_dir);
            assert_eq!(file.manifest.size, 0);
            assert_eq!(file.manifest.id, blake3::hash(b"d").to_hex().to_string());
            assert_eq!(file.absolute_path, "/root/d");
        }
        _ => panic!(),
    }
    assert_eq!(
        begin_file(&item("s", FileKind::Other, 0), None, MIB).unwrap_err().message(),
        "输入无效: 快照中出现了不支持的文件类型"
    );
    assert!(matches!(
        begin_file(&item("f", FileKind::File, 3), None, MIB),
        Ok(FileStep::Hash)
    ));
    let (full, chunks) = hash(b"abc", MIB);
    let file = item("f", FileKind::File, 3);
    match finish_file(&file, "k".to_owned(), full, chunks, 4, 77) {
        Err(error) => assert_eq!(error.message(), "输入无效: 源文件在准备快照期间发生变化: f"),
        _ => panic!(),
    }
    let (full, chunks) = hash(b"abc", MIB);
    assert!(finish_file(&file, "k".to_owned(), full, chunks, 3, 78).is_err());
}

#[test]
fn the_last_file_with_an_identity_is_found() {
    let file = |id: &str, path: &str| SnapshotFile {
        absolute_path: path.to_owned(),
        manifest: ManifestFile {
            id: id.to_owned(),
            relative_path: path.to_owned(),
            size: 0,
            modified_ms: 0,
            blake3: Vec::new(),
            chunks: Vec::new(),
            is_dir: false,
        },
    };
    let record = SnapshotRecord::new("s".to_owned(), vec![file("a", "1"), file("b", "2"), file("a", "3")]);
    assert_eq!(record.find_file("a").unwrap().absolute_path, "3");
    assert_eq!(record.find_file("b").unwrap().absolute_path, "2");
    assert!(record.find_file("c").is_none());
    let manifest = record.wire_manifest();
    assert_eq!(manifest.snapshot_id, "s");
    assert_eq!(manifest.files.len(), 3);
    assert_eq!(manifest.files[2].relative_path, "3");
    let copy = record.clone();
    assert_eq!(copy.find_file("a").unwrap().absolute_path, "3");
}

#[test]
fn progress_reports() {
    let scan = scanning_progress("s", 5, "a/b", 4);
    assert_eq!(scan.phase, "scanning");
    assert_eq!(scan.scanned_entries, 5);
    assert_eq!(scan.total_entries, 0);
    let mut progress = HashProgress::new(3, 100, 4);
    progress.add(10, false);
    progress.add(20, true);
    let report = progress.report("s", "p", 9);
    assert_eq!(report.phase, "hashing");
    assert_eq!(report.scanned_entries, 3);
    assert_eq!(report.prepared_bytes, 30);
    assert_eq!(report.cache_hits, 1);
    assert_eq!(report.speed_bps, 9);
    assert_eq!(progress.hashed_bytes, 10);
}

fn plain(index: usize, path: String, chunks: Vec<ChunkHash>) -> SnapshotFile {
    SnapshotFile {
        absolute_path: format!("/tmp/file-{index}"),
        manifest: ManifestFile {
            id: format!("{index:064x}"),
            relative_path: path,
            size: 12,
            modified_ms: 1,
            blake3: vec![1; 32],
            chunks,
            is_dir: false,
        },
    }
}

#[test]
fn large_manifest_is_split_into_bounded_pages() {
    let files = (0..8_000)
        .map(|index| plain(index, format!("folder/file-{index:05}.txt"), Vec::new()))
        .collect();
    let snapshot = SnapshotRecord::new("snapshot".into(), files);
    let (frames, sent) =
        send_snapshot_pages(&FrameHeader::new(FrameType::Control, 3, 9), &snapshot);
    sent.unwrap();
    for frame in &frames {
        assert!(frame.body.len() <= MAX_FRAME_SIZE);
    }
    assert!(frames.len() > 1);
    assert!(
        frames[..frames.len() - 1]
            .iter()
            .all(|frame| frame.header.flags & FLAG_MORE != 0)
    );
    assert_eq!(frames.last().unwrap().header.flags & FLAG_MORE, 0);
    let count = frames
        .into_iter()
        .map(|frame| decode_envelope(&frame.body).unwrap())
        .map(|message| match message.payload.unwrap() {
            Payload::SnapshotManifestPage(page) => page.files.len(),
            _ => 0,
        })
        .sum::<usize>();
    assert_eq!(count, 8_000);
}

#[test]
fn a_file_that_fits_in_no_page_is_refused() {
    let chunk = |index: u32| ChunkHash { index, offset: 0, length: 1, blake3: vec![9; 32] };
    let files = vec![
        plain(0, "small".to_owned(), Vec::new()),
        plain(1, "huge".to_owned(), (0..20_000).map(chunk).collect()),
        plain(2, "later".to_owned(), Vec::new()),
    ];
    let snapshot = SnapshotRecord::new("s".into(), files);
    let (frames, sent) = send_snapshot_pages(&FrameHeader::new(FrameType::Control, 3, 9), &snapshot);
    assert_eq!(sent.unwrap_err().message(), "协议错误: 单文件分片清单过大: huge");
    assert_eq!(frames.len(), 1);
    assert_eq!(frames[0].header.flags, FLAG_MORE);
    assert_eq!(frames[0].header.stream_id, 3);
    assert_eq!(frames[0].header.request_id, 9);
}

#[test]
fn an_empty_snapshot_is_one_page() {
    let snapshot = SnapshotRecord::new("s".into(), Vec::new());
    let (frames, sent) = send_snapshot_pages(&FrameHeader::new(FrameType::Control, 3, 9), &snapshot);
    assert!(sent.is_ok());
    assert_eq!(frames.len(), 1);
    assert_eq!(frames[0].header.flags, 0);
}
