//! Values as the database keeps them.

use vstd::hash_map::StringHashMap;
use vstd::prelude::*;

use crate::fields;
use crate::models;
use crate::models::PerformanceSettings;
use crate::outside::crypto;
use crate::snapshot::{HashCacheEntry, HashCacheEntryView};
use crate::tasks;
use crate::text;
use crate::wire::snapshot::{ChunkHash, ChunkHashView, ManifestFileView};

verus! {

/// A chunk as it is stored: the hash is kept as text.
#[derive(Debug)]
pub struct StoredChunk {
    pub index: u32,
    pub offset: u64,
    pub length: u32,
    pub hash: String,
}

/// The model of a [`StoredChunk`].
#[verifier::ext_equal]
pub struct StoredChunkView {
    pub index: u32,
    pub offset: u64,
    pub length: u32,
    pub hash: Seq<char>,
}

impl View for StoredChunk {
    type V = StoredChunkView;

    open spec fn view(&self) -> StoredChunkView {
        StoredChunkView {
            index: self.index,
            offset: self.offset,
            length: self.length,
            hash: self.hash@,
        }
    }
}

/// A chunk as it is stored.
pub open spec fn stored(chunk: ChunkHashView) -> StoredChunkView {
    StoredChunkView {
        index: chunk.index,
        offset: chunk.offset,
        length: chunk.length,
        hash: crypto::base64_text(chunk.blake3),
    }
}

/// The chunk that was stored, where the text of its hash can be read.
pub open spec fn loaded(chunk: StoredChunkView) -> Option<ChunkHashView> {
    match crypto::base64_bytes(chunk.hash) {
        Some(blake3) => Some(
            ChunkHashView {
                index: chunk.index,
                offset: chunk.offset,
                length: chunk.length,
                blake3,
            },
        ),
        None => None,
    }
}

/// The chunks that were stored among the first `n`, where all can be read.
pub open spec fn loaded_prefix(chunks: Seq<StoredChunkView>, n: nat) -> Option<Seq<ChunkHashView>>
    decreases n,
{
    if n == 0 {
        Some(Seq::empty())
    } else {
        match (loaded_prefix(chunks, (n - 1) as nat), loaded(chunks[n - 1])) {
            (Some(list), Some(chunk)) => Some(list.push(chunk)),
            _ => None,
        }
    }
}

proof fn lemma_unloaded_stays(chunks: Seq<StoredChunkView>, n: nat, m: nat)
    requires
        n <= m,
        loaded_prefix(chunks, n) is None,
    ensures
        loaded_prefix(chunks, m) is None,
    decreases m,
{
    if n < m {
        lemma_unloaded_stays(chunks, n, (m - 1) as nat);
    }
}

/// Chunks as they are stored. What is stored can be loaded again.
pub fn store_chunks(chunks: &Vec<ChunkHash>) -> (list: Vec<StoredChunk>)
    ensures
        fields::views(list@) == fields::views(chunks@).map_values(
            |chunk: ChunkHashView| stored(chunk),
        ),
        loaded_prefix(fields::views(list@), list@.len()) == Some(fields::views(chunks@)),
{
    let ghost all = fields::views(chunks@);
    let ghost whole = all.map_values(|chunk: ChunkHashView| stored(chunk));
    let mut list: Vec<StoredChunk> = Vec::new();
    let mut i: usize = 0;
    assert(fields::views(list@) =~= whole.take(0));
    assert(all.take(0) =~= Seq::empty());
    while i < chunks.len()
        invariant
            i <= chunks@.len(),
            all == fields::views(chunks@),
            whole == all.map_values(|chunk: ChunkHashView| stored(chunk)),
            fields::views(list@) == whole.take(i as int),
            loaded_prefix(whole, i as nat) == Some(all.take(i as int)),
        decreases chunks@.len() - i,
    {
        let chunk = &chunks[i];
        let ghost before = list@;
        let item = StoredChunk {
            index: chunk.index,
            offset: chunk.offset,
            length: chunk.length,
            hash: crypto::base64_encode(chunk.blake3.as_slice()),
        };
        list.push(item);
        proof {
            assert(all[i as int] == chunk@);
            assert(item@ =~= whole[i as int]);
            assert(loaded(item@) == Some(chunk@));
            assert(fields::views(list@) =~= fields::views(before).push(item@));
            assert(all.take(i + 1) =~= all.take(i as int).push(chunk@));
        }
        i += 1;
        assert(fields::views(list@) =~= whole.take(i as int));
    }
    proof {
        assert(whole.take(i as int) =~= whole);
        assert(all.take(i as int) =~= all);
    }
    list
}

/// The chunks that were stored; `None` where the text of a hash cannot be
/// read.
pub fn load_chunks(list: &Vec<StoredChunk>) -> (chunks: Option<Vec<ChunkHash>>)
    ensures
        match loaded_prefix(fields::views(list@), list@.len()) {
            Some(expected) => chunks matches Some(c) && fields::views(c@) == expected,
            None => chunks is None,
        },
{
    let ghost all = fields::views(list@);
    let mut chunks: Vec<ChunkHash> = Vec::new();
    let mut i: usize = 0;
    assert(fields::views(chunks@) =~= Seq::empty());
    while i < list.len()
        invariant
            i <= list@.len(),
            all == fields::views(list@),
            loaded_prefix(all, i as nat) == Some(fields::views(chunks@)),
        decreases list@.len() - i,
    {
        let item = &list[i];
        assert(all[i as int] == item@);
        match crypto::base64_decode(item.hash.as_str()) {
            Some(blake3) => {
                let ghost before = chunks@;
                let chunk = ChunkHash {
                    index: item.index,
                    offset: item.offset,
                    length: item.length,
                    blake3,
                };
                chunks.push(chunk);
                assert(fields::views(chunks@) =~= fields::views(before).push(chunk@));
            },
            None => {
                proof {
                    assert(loaded_prefix(all, (i + 1) as nat) is None);
                    lemma_unloaded_stays(all, (i + 1) as nat, all.len());
                }
                return None;
            },
        }
        i += 1;
    }
    Some(chunks)
}

/// A size or a count as the database keeps it.
pub fn to_column(n: u64) -> (column: i64)
    ensures
        column == n as i64,
        column as u64 == n,
{
    assert((n as i64) as u64 == n) by (bit_vector);
    #[verifier::truncate] (n as i64)
}

/// A size or a count that the database kept.
pub fn from_column(column: i64) -> (n: u64)
    ensures
        n == column as u64,
{
    #[verifier::truncate] (column as u64)
}

/// Every number comes back from the database as it went in.
pub proof fn law_column_roundtrip(n: u64)
    ensures
        (n as i64) as u64 == n,
{
    assert((n as i64) as u64 == n) by (bit_vector);
}

/// What is kept of a file's progress.
#[derive(Debug)]
pub struct FileProgress {
    pub full_hash: Vec<u8>,
    pub bitmap: Vec<u8>,
    pub completed: bool,
}

/// The model of a [`FileProgress`].
#[verifier::ext_equal]
pub struct FileProgressView {
    pub full_hash: Seq<u8>,
    pub bitmap: Seq<u8>,
    pub completed: bool,
}

impl View for FileProgress {
    type V = FileProgressView;

    open spec fn view(&self) -> FileProgressView {
        FileProgressView {
            full_hash: self.full_hash@,
            bitmap: self.bitmap@,
            completed: self.completed,
        }
    }
}

/// What is kept of a file's progress when a download starts anew: what was
/// there stays if the file is the same, else nothing is done.
pub open spec fn renewed(
    kept: Option<FileProgressView>,
    full_hash: Seq<u8>,
    chunk_count: nat,
) -> FileProgressView {
    match kept {
        Some(old) if old.full_hash == full_hash => old,
        _ => FileProgressView {
            full_hash,
            bitmap: Seq::new((chunk_count + 7) / 8, |i: int| 0u8),
            completed: false,
        },
    }
}

/// What is kept of a file's progress when a download starts anew.
pub fn renew_progress(kept: Option<FileProgress>, full_hash: Vec<u8>, chunk_count: usize) -> (progress:
    FileProgress)
    ensures
        progress@ == renewed(
            match kept {
                Some(old) => Some(old@),
                None => None,
            },
            full_hash@,
            chunk_count as nat,
        ),
{
    match kept {
        Some(old) => if text::same_bytes(old.full_hash.as_slice(), full_hash.as_slice()) {
            old
        } else {
            let progress = FileProgress {
                full_hash,
                bitmap: tasks::empty_bitmap(chunk_count),
                completed: false,
            };
            assert(progress@.bitmap =~= Seq::new((chunk_count as nat + 7) / 8, |i: int| 0u8));
            progress
        },
        None => {
            let progress = FileProgress {
                full_hash,
                bitmap: tasks::empty_bitmap(chunk_count),
                completed: false,
            };
            assert(progress@.bitmap =~= Seq::new((chunk_count as nat + 7) / 8, |i: int| 0u8));
            progress
        },
    }
}

/// What was done of a file counts further exactly where the file has the hash
/// it had; of any other file nothing is done, whatever was kept.
pub proof fn law_changed_files_start_anew(
    kept: FileProgressView,
    full_hash: Seq<u8>,
    chunk_count: nat,
    j: nat,
)
    ensures
        kept.full_hash == full_hash ==> renewed(Some(kept), full_hash, chunk_count) == kept,
        kept.full_hash != full_hash ==> renewed(Some(kept), full_hash, chunk_count) == renewed(
            None,
            full_hash,
            chunk_count,
        ),
        renewed(None, full_hash, chunk_count).full_hash == full_hash,
        !renewed(None, full_hash, chunk_count).completed,
        !tasks::bit(renewed(None, full_hash, chunk_count).bitmap, j),
        8 * renewed(None, full_hash, chunk_count).bitmap.len() >= chunk_count,
{
    tasks::lemma_blank(renewed(None, full_hash, chunk_count).bitmap, j);
}

/// The length of a bitmap of a given length that is made to hold some bits.
pub open spec fn marked_len(len: nat, indexes: Seq<usize>) -> nat
    decreases indexes.len(),
{
    if indexes.len() == 0 {
        len
    } else {
        tasks::grown_len(marked_len(len, indexes.drop_last()), indexes.last())
    }
}

/// Marks chunks that came in; the bitmap grows where it is too short.
pub fn mark_chunks_complete(bitmap: &mut Vec<u8>, indexes: &Vec<usize>)
    ensures
        final(bitmap)@.len() == marked_len(old(bitmap)@.len(), indexes@),
        forall|j: nat| #[trigger]
            tasks::bit(final(bitmap)@, j) == (tasks::bit(old(bitmap)@, j) || exists|i: int|
                0 <= i < indexes@.len() && indexes@[i] == j),
{
    let ghost before = bitmap@;
    let mut i: usize = 0;
    while i < indexes.len()
        invariant
            i <= indexes@.len(),
            before == old(bitmap)@,
            bitmap@.len() == marked_len(before.len(), indexes@.take(i as int)),
            forall|j: nat| #[trigger]
                tasks::bit(bitmap@, j) == (tasks::bit(before, j) || exists|k: int|
                    0 <= k < i && indexes@[k] == j),
        decreases indexes@.len() - i,
    {
        let ghost current = bitmap@;
        tasks::set_bit(bitmap, indexes[i]);
        proof {
            assert(indexes@.take(i + 1).drop_last() =~= indexes@.take(i as int));
            assert forall|j: nat| #[trigger] tasks::bit(bitmap@, j) == (tasks::bit(before, j)
                || exists|k: int| 0 <= k < i + 1 && indexes@[k] == j) by {
                assert(tasks::bit(current, j) == (tasks::bit(before, j) || exists|k: int|
                    0 <= k < i && indexes@[k] == j));
                if j == indexes@[i as int] {
                    assert(0 <= i < i + 1 && indexes@[i as int] == j);
                }
            }
        }
        i += 1;
    }
    assert(indexes@.take(i as int) =~= indexes@);
}

/// A chunk that was noted is not fetched again when the download starts anew,
/// as long as the file is the same and the chunk is intact on disk. `checked`
/// is the bitmap after the check of the partial file.
pub proof fn law_noted_chunks_are_not_fetched_again(
    kept: FileProgressView,
    file: ManifestFileView,
    contents: Seq<u8>,
    checked: Seq<u8>,
    k: int,
)
    requires
        0 <= k < file.chunks.len(),
        forall|i: int, j: int|
            0 <= i < j < file.chunks.len() ==> (#[trigger] file.chunks[i]).index != (
            #[trigger] file.chunks[j]).index,
        kept.full_hash == file.blake3,
        tasks::bit(kept.bitmap, file.chunks[k].index as nat),
        !tasks::is_damaged(contents, file.chunks[k]),
        ({
            let bitmap = renewed(Some(kept), file.blake3, file.chunks.len()).bitmap;
            forall|j: nat| #[trigger]
                tasks::bit(checked, j) == tasks::bit_after_checks(
                    contents,
                    file.chunks,
                    tasks::bit(bitmap, j),
                    j,
                    file.chunks.len(),
                )
        }),
    ensures
        !tasks::missing_positions(file.chunks, checked, file.chunks.len()).contains(k),
{
    tasks::law_resume_fetches_only_what_is_missing(
        contents,
        file.chunks,
        kept.bitmap,
        checked,
        k,
    );
}

/// Marking a chunk changes the stored bitmap of its file alone: that has one
/// more bit, and every other row is as it was. `rows` are the stored bitmaps by
/// download and file, `marked` is what is written.
pub proof fn law_marking_touches_one_row(
    rows: Map<(Seq<char>, Seq<char>), Seq<u8>>,
    task_id: Seq<char>,
    file_id: Seq<char>,
    index: usize,
    marked: Seq<u8>,
)
    requires
        rows.contains_key((task_id, file_id)),
        tasks::is_marked(rows[(task_id, file_id)], marked, index),
    ensures
        ({
            let key = (task_id, file_id);
            let after = rows.insert(key, marked);
            &&& after.dom() == rows.dom()
            &&& forall|j: nat| #[trigger]
                tasks::bit(after[key], j) == (j == index || tasks::bit(rows[key], j))
            &&& after[key].len() == tasks::grown_len(rows[key].len(), index)
            &&& forall|other: (Seq<char>, Seq<char>)|
                other != key && rows.contains_key(other) ==> #[trigger] after[other] == rows[other]
        }),
{
    assert(rows.insert((task_id, file_id), marked).dom() =~= rows.dom());
}

// ---------------------------------------------------------------------------
// Stored hashes
// ---------------------------------------------------------------------------

/// The hashes of a file as a row of the database.
#[derive(Debug)]
pub struct CacheRow {
    pub key: String,
    pub size: i64,
    pub modified_ms: i64,
    pub full_hash: Vec<u8>,
    pub chunks: Vec<StoredChunk>,
}

/// The model of a [`CacheRow`].
#[verifier::ext_equal]
pub struct CacheRowView {
    pub key: Seq<char>,
    pub size: i64,
    pub modified_ms: i64,
    pub full_hash: Seq<u8>,
    pub chunks: Seq<StoredChunkView>,
}

impl View for CacheRow {
    type V = CacheRowView;

    open spec fn view(&self) -> CacheRowView {
        CacheRowView {
            key: self.key@,
            size: self.size,
            modified_ms: self.modified_ms,
            full_hash: self.full_hash@,
            chunks: fields::views(self.chunks@),
        }
    }
}

/// The hashes in a row, where all of them can be read.
pub open spec fn entry_of(row: CacheRowView) -> Option<HashCacheEntryView> {
    match loaded_prefix(row.chunks, row.chunks.len()) {
        Some(chunks) => Some(
            HashCacheEntryView {
                size: row.size as u64,
                modified_ms: row.modified_ms,
                full_hash: row.full_hash,
                chunks,
            },
        ),
        None => None,
    }
}

/// The row for the hashes of a file. What is stored is read back.
pub fn cache_row(key: String, entry: HashCacheEntry) -> (row: CacheRow)
    ensures
        row@ == (CacheRowView {
            key: key@,
            size: entry@.size as i64,
            modified_ms: entry@.modified_ms,
            full_hash: entry@.full_hash,
            chunks: entry@.chunks.map_values(|chunk: ChunkHashView| stored(chunk)),
        }),
        entry_of(row@) == Some(entry@),
{
    let chunks = store_chunks(&entry.chunks);
    let size = to_column(entry.size);
    CacheRow {
        key,
        size,
        modified_ms: entry.modified_ms,
        full_hash: entry.full_hash,
        chunks,
    }
}

/// The hashes that are stored, by their keys.
pub struct HashCache {
    pub entries: StringHashMap<HashCacheEntry>,
}

impl View for HashCache {
    type V = Map<Seq<char>, HashCacheEntryView>;

    open spec fn view(&self) -> Map<Seq<char>, HashCacheEntryView> {
        self.entries@.map_values(|entry: HashCacheEntry| entry@)
    }
}

impl HashCache {
    pub fn new() -> (cache: HashCache)
        ensures
            cache@ == Map::<Seq<char>, HashCacheEntryView>::empty(),
    {
        let cache = HashCache { entries: StringHashMap::new() };
        assert(cache@ =~= Map::empty());
        cache
    }

    /// Adds hashes under a key.
    pub fn insert(&mut self, key: String, entry: HashCacheEntry)
        ensures
            final(self)@ == old(self)@.insert(key@, entry@),
    {
        let ghost before = self@;
        self.entries.insert(key, entry);
        assert(self@ =~= before.insert(key@, entry@));
    }

    /// Adds what a row holds; `false` where it cannot be read.
    pub fn add_row(&mut self, row: CacheRow) -> (ok: bool)
        ensures
            match entry_of(row@) {
                Some(entry) => ok && final(self)@ == old(self)@.insert(row@.key, entry),
                None => !ok && final(self)@ == old(self)@,
            },
    {
        match load_chunks(&row.chunks) {
            Some(chunks) => {
                let entry = HashCacheEntry {
                    size: from_column(row.size),
                    modified_ms: row.modified_ms,
                    full_hash: row.full_hash,
                    chunks,
                };
                self.insert(row.key, entry);
                true
            },
            None => false,
        }
    }

    /// The hashes under a key.
    pub fn get(&self, key: &str) -> (entry: Option<&HashCacheEntry>)
        ensures
            match entry {
                Some(found) => self@.contains_key(key@) && found@ == self@[key@],
                None => !self@.contains_key(key@),
            },
    {
        self.entries.get(key)
    }
}

/// The table of stored hashes after rows were written, each in place of the one
/// with its key.
pub open spec fn rows_written(
    table: Map<Seq<char>, CacheRowView>,
    rows: Seq<CacheRowView>,
) -> Map<Seq<char>, CacheRowView>
    decreases rows.len(),
{
    if rows.len() == 0 {
        table
    } else {
        rows_written(table, rows.drop_last()).insert(rows.last().key, rows.last())
    }
}

/// Whether a table has each row under its key, and all of them can be read.
pub open spec fn is_readable(table: Map<Seq<char>, CacheRowView>) -> bool {
    forall|key: Seq<char>| #[trigger]
        table.contains_key(key) ==> table[key].key == key && entry_of(table[key]) is Some
}

/// The hashes in a table that can be read.
pub open spec fn cache_of(table: Map<Seq<char>, CacheRowView>) -> Map<
    Seq<char>,
    HashCacheEntryView,
> {
    table.map_values(|row: CacheRowView| entry_of(row)->0)
}

/// Some hashes by their keys, with others before them.
pub open spec fn entries_added(
    cache: Map<Seq<char>, HashCacheEntryView>,
    keys: Seq<Seq<char>>,
    entries: Seq<HashCacheEntryView>,
) -> Map<Seq<char>, HashCacheEntryView>
    decreases keys.len(),
{
    if keys.len() == 0 {
        cache
    } else {
        entries_added(cache, keys.drop_last(), entries).insert(
            keys.last(),
            entries[keys.len() - 1],
        )
    }
}

proof fn lemma_rows_written(
    table: Map<Seq<char>, CacheRowView>,
    rows: Seq<CacheRowView>,
    keys: Seq<Seq<char>>,
    entries: Seq<HashCacheEntryView>,
)
    requires
        is_readable(table),
        rows.len() == keys.len() <= entries.len(),
        forall|i: int|
            0 <= i < rows.len() ==> (#[trigger] rows[i]).key == keys[i] && entry_of(rows[i]) == Some(
                entries[i],
            ),
    ensures
        is_readable(rows_written(table, rows)),
        cache_of(rows_written(table, rows)) == entries_added(cache_of(table), keys, entries),
    decreases rows.len(),
{
    if rows.len() > 0 {
        let before = rows.drop_last();
        assert forall|i: int| 0 <= i < before.len() implies (#[trigger] before[i]).key
            == keys.drop_last()[i] && entry_of(before[i]) == Some(entries[i]) by {
            assert(before[i] == rows[i]);
        }
        lemma_rows_written(table, before, keys.drop_last(), entries);
        let written = rows_written(table, before);
        let last = rows[rows.len() - 1];
        assert(entry_of(last) == Some(entries[rows.len() - 1]));
        assert(cache_of(written.insert(last.key, last)) =~= cache_of(written).insert(
            last.key,
            entries[rows.len() - 1],
        ));
    }
}

proof fn lemma_entries_added(
    cache: Map<Seq<char>, HashCacheEntryView>,
    keys: Seq<Seq<char>>,
    entries: Seq<HashCacheEntryView>,
    key: Seq<char>,
)
    requires
        keys.len() <= entries.len(),
        forall|i: int, j: int| 0 <= i < j < keys.len() ==> #[trigger] keys[i] != #[trigger] keys[j],
    ensures
        ({
            let after = entries_added(cache, keys, entries);
            &&& after.contains_key(key) <==> cache.contains_key(key) || keys.contains(key)
            &&& forall|i: int| 0 <= i < keys.len() && #[trigger] keys[i] == key ==> after[key]
                == entries[i]
            &&& !keys.contains(key) && cache.contains_key(key) ==> after[key] == cache[key]
        }),
    decreases keys.len(),
{
    if keys.len() > 0 {
        let before = keys.drop_last();
        assert forall|i: int, j: int| 0 <= i < j < before.len() implies #[trigger] before[i]
            != #[trigger] before[j] by {
            assert(before[i] == keys[i] && before[j] == keys[j]);
        }
        lemma_entries_added(cache, before, entries, key);
        let last = keys[keys.len() - 1];
        assert(last == keys.last());
        if keys.contains(key) && key != last {
            let i = keys.index_of(key);
            assert(before[i] == key);
        }
        if before.contains(key) {
            let i = before.index_of(key);
            assert(keys[i] == key);
        }
        assert forall|i: int| 0 <= i < keys.len() && #[trigger] keys[i] == key implies
            entries_added(cache, keys, entries)[key] == entries[i] by {
            if i < before.len() {
                assert(before[i] == key);
            }
        }
    }
}

/// The stored hashes after some were written are those, and the others as they
/// were: what one snapshot stores, the next one finds, and nothing else is
/// lost or changed. `rows` are the rows that are written for the hashes.
pub proof fn law_hash_cache_keeps_what_is_stored(
    table: Map<Seq<char>, CacheRowView>,
    rows: Seq<CacheRowView>,
    keys: Seq<Seq<char>>,
    entries: Seq<HashCacheEntryView>,
    key: Seq<char>,
)
    requires
        is_readable(table),
        rows.len() == keys.len() == entries.len(),
        forall|i: int|
            0 <= i < rows.len() ==> (#[trigger] rows[i]).key == keys[i] && entry_of(rows[i]) == Some(
                entries[i],
            ),
        forall|i: int, j: int| 0 <= i < j < keys.len() ==> #[trigger] keys[i] != #[trigger] keys[j],
    ensures
        is_readable(rows_written(table, rows)),
        ({
            let before = cache_of(table);
            let after = cache_of(rows_written(table, rows));
            &&& after.contains_key(key) <==> before.contains_key(key) || keys.contains(key)
            &&& forall|i: int| 0 <= i < keys.len() && #[trigger] keys[i] == key ==> after[key]
                == entries[i]
            &&& !keys.contains(key) && before.contains_key(key) ==> after[key] == before[key]
        }),
{
    lemma_rows_written(table, rows, keys, entries);
    lemma_entries_added(cache_of(table), keys, entries, key);
}

// ---------------------------------------------------------------------------
// Settings
// ---------------------------------------------------------------------------

/// The settings that were stored, or those of a new installation.
pub fn settings_or_default(kept: Option<PerformanceSettings>) -> (settings: PerformanceSettings)
    ensures
        settings == match kept {
            Some(s) => s,
            None => models::default_settings(),
        },
{
    match kept {
        Some(settings) => settings,
        None => PerformanceSettings::default(),
    }
}

} // verus!
