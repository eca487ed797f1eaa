use lanflow::models::PerformanceSettings;
use lanflow::snapshot::HashCacheEntry;
use lanflow::store::{
    cache_row, from_column, load_chunks, mark_chunks_complete, renew_progress,
    settings_or_default, store_chunks, to_column, FileProgress, HashCache, StoredChunk,
};
use lanflow::tasks::bit_is_set;
use lanflow::wire::snapshot::ChunkHash;

#[test]
fn chunk_lists_are_stored() {
    let chunks = vec![
        ChunkHash { index: 0, offset: 0, length: 5, blake3: vec![0xfb, 0xff] },
        ChunkHash { index: 1, offset: 5, length: 6, blake3: Vec::new() },
    ];
    let stored = store_chunks(&chunks);
    assert_eq!(stored[0].hash, "+/8=");
    assert_eq!((stored[1].index, stored[1].offset, stored[1].length), (1, 5, 6));
    assert_eq!(stored[1].hash, "");
    let back = load_chunks(&stored).unwrap();
    assert_eq!(back.len(), 2);
    assert_eq!(back[0].blake3, vec![0xfb, 0xff]);
    assert_eq!((back[1].index, back[1].offset, back[1].length), (1, 5, 6));
}

#[test]
fn broken_hashes_are_noticed() {
    let stored = |hash: &str| {
        vec![StoredChunk { index: 0, offset: 0, length: 1, hash: hash.to_owned() }]
    };
    assert!(load_chunks(&stored("***")).is_none());
    assert!(load_chunks(&stored("+/8")).is_none());
    assert!(load_chunks(&stored("+/8=")).is_some());
}

#[test]
fn stored_hashes_are_found_again() {
    let entry = |size: u64| HashCacheEntry {
        size,
        modified_ms: -3,
        full_hash: vec![1; 32],
        chunks: vec![ChunkHash { index: 0, offset: 0, length: 5, blake3: vec![9; 32] }],
    };
    let mut cache = HashCache::new();
    cache.insert("kept".to_owned(), entry(1));
    cache.insert("k".to_owned(), entry(2));
    let row = cache_row("k".to_owned(), entry(u64::MAX));
    assert_eq!((row.key.as_str(), row.size, row.modified_ms), ("k", -1, -3));
    assert!(cache.add_row(row));
    assert_eq!(cache.get("k").unwrap().size, u64::MAX);
    assert_eq!(cache.get("k").unwrap().chunks[0].blake3, vec![9; 32]);
    assert_eq!(cache.get("kept").unwrap().size, 1);
    assert!(cache.get("other").is_none());
    let mut broken = cache_row("x".to_owned(), entry(3));
    broken.chunks[0].hash = "***".to_owned();
    assert!(!cache.add_row(broken));
    assert!(cache.get("x").is_none());
}

#[test]
fn numbers_fit_in_columns() {
    for n in [0, 1, i64::MAX as u64, i64::MAX as u64 + 1, u64::MAX] {
        assert_eq!(from_column(to_column(n)), n);
    }
    assert_eq!(to_column(u64::MAX), -1);
    assert_eq!(from_column(i64::MIN), 1 << 63);
}

#[test]
fn progress_is_kept_for_the_same_file() {
    let kept = || FileProgress { full_hash: vec![1; 32], bitmap: vec![5], completed: true };
    let same = renew_progress(Some(kept()), vec![1; 32], 20);
    assert_eq!((same.bitmap, same.completed), (vec![5], true));
    let other = renew_progress(Some(kept()), vec![2; 32], 20);
    assert_eq!((other.bitmap, other.completed), (vec![0, 0, 0], false));
    assert_eq!(other.full_hash, vec![2; 32]);
    let fresh = renew_progress(None, vec![3; 32], 1);
    assert_eq!((fresh.bitmap, fresh.completed), (vec![0], false));
}

#[test]
fn finished_chunks_are_marked() {
    let mut bitmap = vec![1];
    mark_chunks_complete(&mut bitmap, &vec![3, 17, 3]);
    assert_eq!(bitmap, vec![9, 0, 2]);
    assert!(bit_is_set(&bitmap, 0));
    mark_chunks_complete(&mut bitmap, &Vec::new());
    assert_eq!(bitmap, vec![9, 0, 2]);
}

#[test]
fn missing_settings_are_the_defaults() {
    let settings = settings_or_default(None);
    assert!(settings.automatic);
    assert_eq!(settings.data_connections, 2);
    assert_eq!(settings.streams_per_connection, 4);
    assert_eq!(settings.chunk_size_mib, 8);
    assert_eq!(settings.hash_workers, 0);
    assert_eq!(settings.bandwidth_limit_mbps, 0);
    assert_eq!(settings.listen_port, 47_932);
    assert!(!settings.autostart);
    let kept = PerformanceSettings { listen_port: 5, ..PerformanceSettings::default() };
    assert_eq!(settings_or_default(Some(kept)).listen_port, 5);
}
