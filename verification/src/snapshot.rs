//! Snapshots: which files they hold, how files are hashed in chunks, and when
//! hashes that were stored earlier can be used again.

use vstd::arithmetic::mul::{lemma_mul_inequality, lemma_mul_is_distributive_add_other_way};
use vstd::hash_map::StringHashMap;
use vstd::prelude::*;
use vstd::utf8;

use crate::error::{ErrorView, LanFlowError};
use crate::fields;
use crate::listing;
use crate::listing::{id_of_path, FileKind};
use crate::ordering;
use crate::outside::hash;
use crate::paths;
use crate::text;
use crate::wire::snapshot::{
    ChunkHash,
    ChunkHashView,
    ManifestFile,
    ManifestFileView,
    SnapshotManifest,
    SnapshotManifestView,
};

verus! {

// ---------------------------------------------------------------------------
// A finished snapshot
// ---------------------------------------------------------------------------

/// A file of a snapshot and where it lies.
#[derive(Debug)]
pub struct SnapshotFile {
    pub absolute_path: String,
    pub manifest: ManifestFile,
}

/// The model of a [`SnapshotFile`].
#[verifier::ext_equal]
pub struct SnapshotFileView {
    pub absolute_path: Seq<char>,
    pub manifest: ManifestFileView,
}

impl View for SnapshotFile {
    type V = SnapshotFileView;

    open spec fn view(&self) -> SnapshotFileView {
        SnapshotFileView { absolute_path: self.absolute_path@, manifest: self.manifest@ }
    }
}

impl Clone for SnapshotFile {
    fn clone(&self) -> (copy: SnapshotFile)
        ensures
            copy@ == self@,
    {
        SnapshotFile {
            absolute_path: self.absolute_path.clone(),
            manifest: self.manifest.clone(),
        }
    }
}

/// A snapshot with an index by file identity.
pub struct SnapshotRecord {
    pub id: String,
    pub files: Vec<SnapshotFile>,
    /// The position of the last file with each identity.
    pub file_index: StringHashMap<usize>,
}

/// The model of a [`SnapshotRecord`].
#[verifier::ext_equal]
pub struct SnapshotView {
    pub id: Seq<char>,
    pub files: Seq<SnapshotFileView>,
}

impl View for SnapshotRecord {
    type V = SnapshotView;

    open spec fn view(&self) -> SnapshotView {
        SnapshotView { id: self.id@, files: fields::views(self.files@) }
    }
}

/// The position of the last file with an identity among some files.
pub open spec fn last_position(files: Seq<SnapshotFileView>, id: Seq<char>) -> Option<int>
    decreases files.len(),
{
    if files.len() == 0 {
        None
    } else if files.last().manifest.id == id {
        Some(files.len() - 1)
    } else {
        last_position(files.drop_last(), id)
    }
}

/// The file with an identity; the last one where several have it.
pub open spec fn file_with(snapshot: SnapshotView, id: Seq<char>) -> Option<SnapshotFileView> {
    match last_position(snapshot.files, id) {
        Some(i) => Some(snapshot.files[i]),
        None => None,
    }
}

proof fn lemma_last_position(files: Seq<SnapshotFileView>, id: Seq<char>)
    ensures
        last_position(files, id) matches Some(i) ==> 0 <= i < files.len() && files[i].manifest.id
            == id,
        last_position(files, id) is None ==> forall|i: int|
            0 <= i < files.len() ==> (#[trigger] files[i]).manifest.id != id,
    decreases files.len(),
{
    if files.len() > 0 {
        lemma_last_position(files.drop_last(), id);
        if last_position(files, id) is None {
            assert forall|i: int| 0 <= i < files.len() implies (#[trigger] files[i]).manifest.id
                != id by {
                if i < files.len() - 1 {
                    assert(files.drop_last()[i] == files[i]);
                }
            }
        }
    }
}

/// The snapshot as one message.
pub open spec fn manifest_of(snapshot: SnapshotView) -> SnapshotManifestView {
    SnapshotManifestView {
        snapshot_id: snapshot.id,
        files: snapshot.files.map_values(|file: SnapshotFileView| file.manifest),
        error: Seq::empty(),
    }
}

impl SnapshotRecord {
    /// The index leads from each identity to the last file that has it.
    pub open spec fn wf(&self) -> bool {
        forall|id: Seq<char>|
            match last_position(self@.files, id) {
                Some(i) => #[trigger] self.file_index@.contains_key(id) && self.file_index@[id] == i,
                None => !self.file_index@.contains_key(id),
            }
    }

    pub fn new(id: String, files: Vec<SnapshotFile>) -> (record: SnapshotRecord)
        ensures
            record.wf(),
            record@ == (SnapshotView { id: id@, files: fields::views(files@) }),
    {
        let ghost all = fields::views(files@);
        let mut file_index: StringHashMap<usize> = StringHashMap::new();
        let mut i: usize = 0;
        while i < files.len()
            invariant
                i <= files@.len(),
                all == fields::views(files@),
                forall|id: Seq<char>|
                    match last_position(all.take(i as int), id) {
                        Some(k) => #[trigger] file_index@.contains_key(id) && file_index@[id] == k,
                        None => !file_index@.contains_key(id),
                    },
            decreases files@.len() - i,
        {
            file_index.insert(files[i].manifest.id.clone(), i);
            proof {
                assert(all.take(i + 1).drop_last() =~= all.take(i as int));
                assert(all.take(i + 1).last() == files@[i as int]@);
            }
            i += 1;
        }
        assert(all.take(i as int) =~= all);
        SnapshotRecord { id, files, file_index }
    }

    /// The whole snapshot as one message.
    pub fn wire_manifest(&self) -> (manifest: SnapshotManifest)
        ensures
            manifest@ == manifest_of(self@),
    {
        let mut files: Vec<ManifestFile> = Vec::new();
        let mut i: usize = 0;
        assert(fields::views(files@) =~= manifest_of(self@).files.take(0));
        while i < self.files.len()
            invariant
                i <= self.files@.len(),
                fields::views(files@) == manifest_of(self@).files.take(i as int),
            decreases self.files@.len() - i,
        {
            let ghost before = files@;
            let manifest = self.files[i].manifest.clone();
            files.push(manifest);
            i += 1;
            assert(fields::views(files@) =~= fields::views(before).push(manifest@));
            assert(fields::views(files@) =~= manifest_of(self@).files.take(i as int));
        }
        let manifest = SnapshotManifest {
            snapshot_id: self.id.clone(),
            files,
            error: String::new(),
        };
        assert(manifest@ =~= manifest_of(self@));
        manifest
    }

    /// The file with an identity.
    pub fn find_file(&self, file_id: &str) -> (file: Option<&SnapshotFile>)
        requires
            self.wf(),
        ensures
            match file_with(self@, file_id@) {
                Some(expected) => file matches Some(f) && f@ == expected,
                None => file is None,
            },
    {
        proof {
            lemma_last_position(self@.files, file_id@);
            assert(self.file_index@.contains_key(file_id@) == (last_position(
                self@.files,
                file_id@,
            ) is Some));
        }
        match self.file_index.get(file_id) {
            Some(index) => Some(&self.files[*index]),
            None => None,
        }
    }
}

impl Clone for SnapshotRecord {
    fn clone(&self) -> (copy: SnapshotRecord)
        ensures
            copy@ == self@,
            copy.wf(),
    {
        let mut files: Vec<SnapshotFile> = Vec::new();
        let mut i: usize = 0;
        assert(fields::views(files@) =~= self@.files.take(0));
        while i < self.files.len()
            invariant
                i <= self.files@.len(),
                fields::views(files@) == self@.files.take(i as int),
            decreases self.files@.len() - i,
        {
            let ghost before = files@;
            let file = self.files[i].clone();
            files.push(file);
            i += 1;
            assert(fields::views(files@) =~= fields::views(before).push(file@));
            assert(fields::views(files@) =~= self@.files.take(i as int));
        }
        assert(self@.files.take(i as int) =~= self@.files);
        SnapshotRecord::new(self.id.clone(), files)
    }
}

// ---------------------------------------------------------------------------
// Hashing a file chunk by chunk
// ---------------------------------------------------------------------------

/// Where chunk `i` ends.
pub open spec fn chunk_end(len: nat, chunk_size: nat, i: nat) -> nat {
    if (i + 1) * chunk_size <= len {
        (i + 1) * chunk_size
    } else {
        len
    }
}

/// Chunk `i` of some contents and its hash.
pub open spec fn chunk_at(data: Seq<u8>, chunk_size: nat, i: nat) -> ChunkHashView {
    let start = i * chunk_size;
    let end = chunk_end(data.len(), chunk_size, i);
    ChunkHashView {
        index: i as u32,
        offset: start as u64,
        length: (end - start) as u32,
        blake3: hash::blake3_digest(data.subrange(start as int, end as int)),
    }
}

/// Whether `chunks` are the chunks of some contents: cut at multiples of the
/// chunk size, the last one as short as the contents leave it.
pub open spec fn are_chunks_of(
    chunks: Seq<ChunkHashView>,
    data: Seq<u8>,
    chunk_size: nat,
) -> bool {
    &&& chunks.len() * chunk_size >= data.len()
    &&& chunks.len() > 0 ==> (chunks.len() - 1) * chunk_size < data.len()
    &&& forall|i: int|
        0 <= i < chunks.len() ==> #[trigger] chunks[i] == chunk_at(data, chunk_size, i as nat)
}

/// A file that is being hashed.
pub struct FileHasher {
    full: blake3::Hasher,
    chunks: Vec<ChunkHash>,
    chunk_size: usize,
    offset: u64,
}

impl FileHasher {
    /// What was read of the file so far.
    pub closed spec fn contents(&self) -> Seq<u8> {
        hash::absorbed(self.full)
    }

    pub closed spec fn chunk_size(&self) -> nat {
        self.chunk_size as nat
    }

    /// How many chunks were read so far.
    pub closed spec fn count(&self) -> nat {
        self.chunks@.len()
    }

    pub closed spec fn wf(&self) -> bool {
        &&& 0 < self.chunk_size <= u32::MAX
        &&& are_chunks_of(fields::views(self.chunks@), self.contents(), self.chunk_size as nat)
        &&& self.offset == self.contents().len()
        &&& self.chunks@.len() <= u32::MAX
        &&& forall|i: int| 0 <= i < self.chunks@.len() ==> (#[trigger] self.chunks@[i])@.blake3.len()
            == 32
    }

    /// Whether every chunk so far was a full one.
    pub open spec fn takes_more(&self) -> bool {
        self.contents().len() == self.count() * self.chunk_size()
    }

    pub fn new(chunk_size: usize) -> (hasher: FileHasher)
        requires
            0 < chunk_size <= u32::MAX,
        ensures
            hasher.wf(),
            hasher.contents() == Seq::<u8>::empty(),
            hasher.chunk_size() == chunk_size,
            hasher.count() == 0,
            hasher.takes_more(),
    {
        let hasher = FileHasher { full: hash::new_hasher(), chunks: Vec::new(), chunk_size, offset: 0 };
        proof {
            lemma_mul_inequality(0, 0, chunk_size as int);
            assert(0 * (chunk_size as nat) == 0) by (nonlinear_arith);
        }
        hasher
    }

    /// Takes in the next chunk: a full one, or the last.
    pub fn add_chunk(&mut self, block: &[u8])
        requires
            old(self).wf(),
            old(self).takes_more(),
            0 < block@.len() <= old(self).chunk_size(),
            old(self).count() < u32::MAX,
        ensures
            final(self).wf(),
            final(self).contents() == old(self).contents() + block@,
            final(self).chunk_size() == old(self).chunk_size(),
            final(self).count() == old(self).count() + 1,
            block@.len() == old(self).chunk_size() ==> final(self).takes_more(),
    {
        let ghost data = self.contents();
        let ghost size = self.chunk_size as nat;
        let ghost k = self.chunks@.len();
        let ghost before = fields::views(self.chunks@);
        proof {
            lemma_chunk_bounds(k as int, size as int);
            lemma_mul_is_distributive_add_other_way(size as int, k as int, 1);
        }
        let mut chunk_hasher = hash::new_hasher();
        hash::update_rayon(&mut self.full, block);
        hash::update_rayon(&mut chunk_hasher, block);
        let digest = hash::finalize(&chunk_hasher);
        let index: u32 = self.chunks.len() as u32;
        let chunk = ChunkHash {
            index,
            offset: self.offset,
            length: block.len() as u32,
            blake3: digest,
        };
        let ghost old_chunks = self.chunks@;
        self.chunks.push(chunk);
        self.offset = self.offset + block.len() as u64;
        proof {
            let all = data + block@;
            assert(self.contents() =~= all);
            let after = fields::views(self.chunks@);
            assert(after =~= before.push(chunk@));
            assert(all.subrange(k * size as int, all.len() as int) =~= block@);
            assert(Seq::<u8>::empty() + block@ =~= block@);
            assert(k * size == data.len());
            assert((k + 1) * size == data.len() + size);
            assert(chunk@ =~= chunk_at(all, size, k));
            assert forall|i: int| 0 <= i < after.len() implies #[trigger] after[i] == chunk_at(
                all,
                size,
                i as nat,
            ) by {
                if i < k {
                    assert(after[i] == before[i]);
                    lemma_mul_inequality(i + 1, k as int, size as int);
                    lemma_mul_inequality(i, i + 1, size as int);
                    lemma_mul_is_distributive_add_other_way(size as int, i, 1);
                    let start = i * size;
                    assert(chunk_end(data.len(), size, i as nat) == (i + 1) * size);
                    assert(chunk_end(all.len(), size, i as nat) == (i + 1) * size);
                    assert(all.subrange(start as int, (i + 1) * size as int) =~= data.subrange(
                        start as int,
                        (i + 1) * size as int,
                    ));
                }
            }
        }
    }

    /// The hash of the file, and its chunks.
    pub fn finish(self) -> (hashes: (Vec<u8>, Vec<ChunkHash>))
        requires
            self.wf(),
        ensures
            hashes.0@ == hash::blake3_digest(self.contents()),
            hashes.0@.len() == 32,
            are_chunks_of(fields::views(hashes.1@), self.contents(), self.chunk_size()),
            hashes.1@.len() <= u32::MAX,
            forall|i: int| 0 <= i < hashes.1@.len() ==> (#[trigger] hashes.1@[i])@.blake3.len()
                == 32,
    {
        let full = hash::finalize(&self.full);
        (full, self.chunks)
    }
}

proof fn lemma_chunk_bounds(k: int, size: int)
    requires
        0 <= k < u32::MAX,
        0 < size <= u32::MAX,
    ensures
        0 <= k * size,
        k * size + size <= u64::MAX,
{
    assert(0 <= k * size && k * size + size <= u64::MAX) by (nonlinear_arith)
        requires
            0 <= k < u32::MAX,
            0 < size <= u32::MAX,
    ;
}

// ---------------------------------------------------------------------------
// Hashes that were stored earlier
// ---------------------------------------------------------------------------

/// The hashes of a file, and the size and the time they belong to.
#[derive(Debug)]
pub struct HashCacheEntry {
    pub size: u64,
    pub modified_ms: i64,
    pub full_hash: Vec<u8>,
    pub chunks: Vec<ChunkHash>,
}

/// The model of a [`HashCacheEntry`].
#[verifier::ext_equal]
pub struct HashCacheEntryView {
    pub size: u64,
    pub modified_ms: i64,
    pub full_hash: Seq<u8>,
    pub chunks: Seq<ChunkHashView>,
}

impl View for HashCacheEntry {
    type V = HashCacheEntryView;

    open spec fn view(&self) -> HashCacheEntryView {
        HashCacheEntryView {
            size: self.size,
            modified_ms: self.modified_ms,
            full_hash: self.full_hash@,
            chunks: fields::views(self.chunks@),
        }
    }
}

/// The length of some chunks together.
pub open spec fn total_length(chunks: Seq<ChunkHashView>) -> nat
    decreases chunks.len(),
{
    if chunks.len() == 0 {
        0
    } else {
        total_length(chunks.drop_last()) + chunks.last().length as nat
    }
}

/// Whether chunk `i` continues the chunks before it, and is a full one unless
/// it reaches the end of the file; the last one is no longer than a full one.
pub open spec fn chunk_fits(chunks: Seq<ChunkHashView>, i: int, size: nat, chunk_size: nat) -> bool {
    let start = total_length(chunks.take(i));
    &&& chunks[i].index == i
    &&& chunks[i].offset == start
    &&& chunks[i].blake3.len() == 32
    &&& 0 < chunks[i].length <= chunk_size
    &&& start + chunks[i].length < size ==> chunks[i].length == chunk_size
}

/// Whether stored hashes are those of a file with the given size and time,
/// cut into chunks of the given size.
pub open spec fn cache_fits(
    entry: HashCacheEntryView,
    size: u64,
    modified_ms: i64,
    chunk_size: nat,
) -> bool {
    &&& entry.size == size
    &&& entry.modified_ms == modified_ms
    &&& entry.full_hash.len() == 32
    &&& forall|i: int|
        0 <= i < entry.chunks.len() ==> #[trigger] chunk_fits(
            entry.chunks,
            i,
            size as nat,
            chunk_size,
        )
    &&& total_length(entry.chunks) == size
}

/// Whether stored hashes can be used again.
pub fn cache_matches(entry: &HashCacheEntry, size: u64, modified_ms: i64, chunk_size: usize) -> (ok:
    bool)
    ensures
        ok == cache_fits(entry@, size, modified_ms, chunk_size as nat),
{
    if entry.size != size || entry.modified_ms != modified_ms || entry.full_hash.len() != 32 {
        return false;
    }
    let ghost chunks = entry@.chunks;
    let mut expected: u64 = 0;
    let mut i: usize = 0;
    assert(chunks.take(0) =~= Seq::empty());
    while i < entry.chunks.len()
        invariant
            i <= entry.chunks@.len(),
            chunks == entry@.chunks,
            entry.size == size,
            expected == total_length(chunks.take(i as int)),
            i <= 0x1_0000_0000,
            expected <= i * 0xffff_ffff,
            forall|j: int|
                0 <= j < i ==> #[trigger] chunk_fits(chunks, j, size as nat, chunk_size as nat),
        decreases entry.chunks@.len() - i,
    {
        let chunk = &entry.chunks[i];
        proof {
            assert(chunks[i as int] == chunk@);
            assert(chunks.take(i + 1).drop_last() =~= chunks.take(i as int));
            assert(chunks.take(i + 1).last() == chunk@);
        }
        if chunk.index as usize != i || chunk.offset != expected || chunk.blake3.len() != 32
            || chunk.length == 0 || chunk.length as usize > chunk_size || (expected + (
        chunk.length as u64) < size && chunk.length as usize != chunk_size) {
            assert(!chunk_fits(chunks, i as int, size as nat, chunk_size as nat));
            return false;
        }
        assert(chunk_fits(chunks, i as int, size as nat, chunk_size as nat));
        expected = expected + chunk.length as u64;
        i += 1;
    }
    assert(chunks.take(i as int) =~= chunks);
    expected == size
}

proof fn lemma_total_of_chunks(
    chunks: Seq<ChunkHashView>,
    data: Seq<u8>,
    chunk_size: nat,
    n: int,
)
    requires
        are_chunks_of(chunks, data, chunk_size),
        0 < chunk_size <= u32::MAX,
        chunks.len() <= u32::MAX,
        0 <= n <= chunks.len(),
    ensures
        total_length(chunks.take(n)) == if n * chunk_size <= data.len() {
            n * chunk_size
        } else {
            data.len() as int
        },
        n < chunks.len() ==> n * chunk_size < data.len(),
    decreases n,
{
    if n > 0 {
        lemma_total_of_chunks(chunks, data, chunk_size, n - 1);
        assert(chunks.take(n).drop_last() =~= chunks.take(n - 1));
        assert(chunks.take(n).last() == chunks[n - 1]);
        lemma_mul_is_distributive_add_other_way(chunk_size as int, n - 1, 1);
        lemma_mul_inequality(n - 1, chunks.len() - 1, chunk_size as int);
    } else {
        assert(chunks.take(0) =~= Seq::empty());
        assert(0 * chunk_size == 0) by (nonlinear_arith);
    }
    if n < chunks.len() {
        lemma_mul_inequality(n, chunks.len() - 1, chunk_size as int);
    }
}

/// The hashes of a file that was just read are found to fit that file: what
/// one snapshot stores, the next one uses.
pub proof fn law_fresh_hashes_fit(
    entry: HashCacheEntryView,
    data: Seq<u8>,
    chunk_size: nat,
)
    requires
        entry.size == data.len(),
        entry.full_hash.len() == 32,
        are_chunks_of(entry.chunks, data, chunk_size),
        forall|i: int| 0 <= i < entry.chunks.len() ==> (#[trigger] entry.chunks[i]).blake3.len()
            == 32,
        0 < chunk_size <= u32::MAX,
        entry.chunks.len() <= u32::MAX,
    ensures
        cache_fits(entry, entry.size, entry.modified_ms, chunk_size),
{
    let chunks = entry.chunks;
    assert forall|i: int| 0 <= i < chunks.len() implies #[trigger] chunk_fits(
        chunks,
        i,
        entry.size as nat,
        chunk_size,
    ) by {
        lemma_total_of_chunks(chunks, data, chunk_size, i);
        lemma_mul_is_distributive_add_other_way(chunk_size as int, i, 1);
        assert(chunks[i] == chunk_at(data, chunk_size, i as nat));
        if i < chunks.len() - 1 {
            lemma_total_of_chunks(chunks, data, chunk_size, i + 1);
        }
    }
    lemma_total_of_chunks(chunks, data, chunk_size, chunks.len() as int);
    assert(chunks.take(chunks.len() as int) =~= chunks);
}

/// Whether chunks lie one behind the other from the beginning of a file to its
/// end.
pub open spec fn tiles(chunks: Seq<ChunkHashView>, size: nat) -> bool {
    &&& forall|i: int|
        0 <= i < chunks.len() ==> (#[trigger] chunks[i]).offset == total_length(chunks.take(i))
    &&& total_length(chunks) == size
}

/// The chunks of a file that was read tile it.
pub proof fn law_chunks_tile_the_file(chunks: Seq<ChunkHashView>, data: Seq<u8>, chunk_size: nat)
    requires
        are_chunks_of(chunks, data, chunk_size),
        0 < chunk_size <= u32::MAX,
        chunks.len() <= u32::MAX,
        data.len() <= u64::MAX,
    ensures
        tiles(chunks, data.len()),
{
    assert forall|i: int| 0 <= i < chunks.len() implies (#[trigger] chunks[i]).offset
        == total_length(chunks.take(i)) by {
        lemma_total_of_chunks(chunks, data, chunk_size, i);
        assert(chunks[i] == chunk_at(data, chunk_size, i as nat));
    }
    lemma_total_of_chunks(chunks, data, chunk_size, chunks.len() as int);
    assert(chunks.take(chunks.len() as int) =~= chunks);
}

/// Stored chunks that are found to fit a file tile it, and none of them is
/// longer than the chunk size.
pub proof fn law_fitting_chunks_tile_the_file(
    entry: HashCacheEntryView,
    size: u64,
    modified_ms: i64,
    chunk_size: nat,
)
    requires
        cache_fits(entry, size, modified_ms, chunk_size),
    ensures
        tiles(entry.chunks, size as nat),
        forall|i: int|
            0 <= i < entry.chunks.len() ==> 0 < (#[trigger] entry.chunks[i]).length <= chunk_size,
{
    assert forall|i: int| 0 <= i < entry.chunks.len() implies (#[trigger] entry.chunks[i]).offset
        == total_length(entry.chunks.take(i)) && 0 < entry.chunks[i].length <= chunk_size by {
        assert(chunk_fits(entry.chunks, i, size as nat, chunk_size));
    }
}

/// The key under which the hashes of a file are stored.
pub open spec fn cache_key(root: Seq<char>, relative_path: Seq<char>) -> Seq<char> {
    hash::hex(
        hash::blake3_digest(
            utf8::encode_utf8(root) + seq![0u8] + utf8::encode_utf8(relative_path),
        ),
        false,
    )
}

/// Files in different directories, and different files of one directory, are
/// stored under one key only if the hash function gives one hash for two byte
/// strings.
pub proof fn law_keys_tell_files_apart(
    root: Seq<char>,
    relative_path: Seq<char>,
    other: Seq<char>,
)
    ensures
        cache_key(root, relative_path) == cache_key(root, other) ==> relative_path == other || exists|
            a: Seq<u8>,
            b: Seq<u8>,
        |
            a != b && #[trigger] hash::blake3_digest(a) == #[trigger] hash::blake3_digest(b),
        cache_key(root, relative_path) == cache_key(other, relative_path) ==> root == other || exists|
            a: Seq<u8>,
            b: Seq<u8>,
        |
            a != b && #[trigger] hash::blake3_digest(a) == #[trigger] hash::blake3_digest(b),
{
    let r = utf8::encode_utf8(root);
    let p = utf8::encode_utf8(relative_path);
    let o = utf8::encode_utf8(other);
    let whole = r + seq![0u8] + p;
    if cache_key(root, relative_path) == cache_key(root, other) {
        let second = r + seq![0u8] + o;
        paths::lemma_hex_injective(
            hash::blake3_digest(whole),
            hash::blake3_digest(second),
            false,
        );
        assert(hash::blake3_digest(whole) == hash::blake3_digest(second));
        assert(whole.skip(r.len() as int + 1) =~= p);
        assert(second.skip(r.len() as int + 1) =~= o);
        if whole == second {
            text::lemma_utf8_injective(relative_path, other);
        }
    }
    if cache_key(root, relative_path) == cache_key(other, relative_path) {
        let second = o + seq![0u8] + p;
        paths::lemma_hex_injective(
            hash::blake3_digest(whole),
            hash::blake3_digest(second),
            false,
        );
        assert(hash::blake3_digest(whole) == hash::blake3_digest(second));
        assert(whole.take(r.len() as int) =~= r);
        assert(second.take(o.len() as int) =~= o);
        if whole == second {
            assert(whole.len() == second.len());
            text::lemma_utf8_injective(root, other);
        }
    }
}

/// The key under which the hashes of a file are stored.
pub fn hash_cache_key(root: &str, relative_path: &str) -> (key: String)
    ensures
        key@ == cache_key(root@, relative_path@),
{
    let mut hasher = hash::new_hasher();
    let mut zero: Vec<u8> = Vec::new();
    zero.push(0);
    hash::update(&mut hasher, root.as_bytes());
    hash::update(&mut hasher, zero.as_slice());
    hash::update(&mut hasher, relative_path.as_bytes());
    assert(hash::absorbed(hasher) =~= utf8::encode_utf8(root@) + seq![0u8] + utf8::encode_utf8(
        relative_path@,
    ));
    let digest = hash::finalize(&hasher);
    hash::to_hex(digest.as_slice())
}

// ---------------------------------------------------------------------------
// Building a snapshot
// ---------------------------------------------------------------------------

/// The chunk size that is used where `requested` was asked for: between one
/// and 64 mebibytes.
pub open spec fn clamped_chunk_size(requested: u32) -> u32 {
    if requested < 0x10_0000 {
        0x10_0000
    } else if requested > 0x400_0000 {
        0x400_0000
    } else {
        requested
    }
}

pub fn clamp_chunk_size(requested: u32) -> (size: usize)
    ensures
        size == clamped_chunk_size(requested),
{
    if requested < 0x10_0000 {
        0x10_0000
    } else if requested > 0x400_0000 {
        0x400_0000
    } else {
        requested as usize
    }
}

/// How many threads hash files: as many as were asked for, at most 32; where
/// the choice is left open, as many as the machine offers, within bounds.
pub fn resolve_hash_workers(requested: u8, available: Option<usize>) -> (workers: usize)
    ensures
        requested > 32 ==> workers == 32,
        0 < requested <= 32 ==> workers == requested,
        requested == 0 ==> workers == match available {
            Some(n) => if n < 2 {
                2
            } else if n > 16 {
                16
            } else {
                n
            },
            None => 4,
        },
{
    if requested > 0 {
        return if requested > 32 {
            32
        } else {
            requested as usize
        };
    }
    let count: usize = match available {
        Some(n) => n,
        None => 4,
    };
    if count < 2 {
        2
    } else if count > 16 {
        16
    } else {
        count
    }
}

/// A text with slashes for backslashes.
pub open spec fn forward_slashes(path: Seq<char>) -> Seq<char> {
    path.map_values(
        |c: char|
            if c == '\\' {
                '/'
            } else {
                c
            },
    )
}

/// Writes slashes for backslashes.
pub fn normalize_slashes(path: &str) -> (normal: String)
    ensures
        normal@ == forward_slashes(path@),
{
    let chars = text::chars_of(path);
    let mut normal = String::new();
    let mut i: usize = 0;
    assert(normal@ =~= forward_slashes(path@).take(0));
    while i < chars.len()
        invariant
            i <= chars@.len(),
            chars@ == path@,
            normal@ == forward_slashes(path@).take(i as int),
        decreases chars@.len() - i,
    {
        let c = chars[i];
        normal.push(
            if c == '\\' {
                '/'
            } else {
                c
            },
        );
        i += 1;
        assert(normal@ =~= forward_slashes(path@).take(i as int));
    }
    assert(normal@ =~= forward_slashes(path@));
    normal
}

/// The relative path of something found below a selected directory, nothing
/// where it is neither a file nor a directory, or why it is refused.
pub open spec fn relative_path(root: Seq<char>, child: Seq<char>, kind: FileKind) -> Result<
    Option<Seq<char>>,
    ErrorView,
> {
    if kind == FileKind::Symlink || kind == FileKind::Other {
        Ok(None)
    } else if paths::is_under(child, root) {
        Ok(
            Some(
                forward_slashes(
                    paths::slashed(paths::parts(child).skip(paths::parts(root).len() as int)),
                ),
            ),
        )
    } else {
        Err(ErrorView::InvalidInput("扫描路径越界"@))
    }
}

/// The relative path of something found below a selected directory; `None`
/// where it is neither a file nor a directory.
pub fn scanned_path(root: &str, child: &str, kind: FileKind) -> (path: Result<
    Option<String>,
    LanFlowError,
>)
    ensures
        kind == FileKind::Symlink || kind == FileKind::Other ==> path == Ok::<
            Option<String>,
            LanFlowError,
        >(None),
        (kind == FileKind::File || kind == FileKind::Directory) && paths::is_under(child@, root@)
            ==> (path matches Ok(Some(p)) && p@ == forward_slashes(
            paths::slashed(paths::parts(child@).skip(paths::parts(root@).len() as int)),
        )),
        (kind == FileKind::File || kind == FileKind::Directory) && !paths::is_under(child@, root@)
            ==> (path matches Err(e) && e@ == ErrorView::InvalidInput("扫描路径越界"@)),
        match relative_path(root@, child@, kind) {
            Ok(Some(expected)) => path matches Ok(Some(p)) && p@ == expected,
            Ok(None) => path matches Ok(None),
            Err(error) => path matches Err(e) && e@ == error,
        },
{
    if matches!(kind, FileKind::Symlink) || matches!(kind, FileKind::Other) {
        return Ok(None);
    }
    match paths::strip_root(child, root) {
        Some(list) => {
            let relative = paths::join_parts(list.as_slice());
            Ok(Some(normalize_slashes(relative.as_str())))
        },
        None => Err(LanFlowError::InvalidInput("扫描路径越界".to_owned())),
    }
}

/// A path that a snapshot takes in.
#[derive(Debug)]
pub struct ScannedPath {
    pub relative_path: String,
    pub absolute_path: String,
}

/// The model of a [`ScannedPath`].
#[verifier::ext_equal]
pub struct ScannedPathView {
    pub relative_path: Seq<char>,
    pub absolute_path: Seq<char>,
}

impl View for ScannedPath {
    type V = ScannedPathView;

    open spec fn view(&self) -> ScannedPathView {
        ScannedPathView {
            relative_path: self.relative_path@,
            absolute_path: self.absolute_path@,
        }
    }
}

/// What paths are sorted by.
pub open spec fn path_key(path: ScannedPathView) -> Seq<u8> {
    utf8::encode_utf8(path.relative_path)
}

pub open spec fn path_keys(list: Seq<ScannedPathView>) -> Seq<Seq<u8>> {
    list.map_values(|path: ScannedPathView| path_key(path))
}

/// Whether `i` is the last position with its relative path.
pub open spec fn is_last_of_path(list: Seq<ScannedPathView>, i: int) -> bool {
    forall|j: int| i < j < list.len() ==> (#[trigger] list[j]).relative_path != list[i].relative_path
}

/// Whether paths are sorted, each relative path at most once.
pub open spec fn is_sorted_by_path(plan: Seq<ScannedPathView>) -> bool {
    forall|i: int, j: int|
        0 <= i < j < plan.len() ==> ordering::lex_lt(
            path_key(#[trigger] plan[i]),
            path_key(#[trigger] plan[j]),
        )
}

/// Whether a path is the last one in `list` with its relative path.
pub open spec fn is_final_path(list: Seq<ScannedPathView>, path: ScannedPathView) -> bool {
    exists|k: int| 0 <= k < list.len() && #[trigger] list[k] == path && is_last_of_path(list, k)
}

/// Whether some path in `plan` has the given relative path.
pub open spec fn has_path(plan: Seq<ScannedPathView>, relative_path: Seq<char>) -> bool {
    exists|i: int| 0 <= i < plan.len() && (#[trigger] plan[i]).relative_path == relative_path
}

/// Whether `plan` holds each relative path of `list` once, sorted, with the
/// place that came last for it.
pub open spec fn is_path_plan(list: Seq<ScannedPathView>, plan: Seq<ScannedPathView>) -> bool {
    &&& is_sorted_by_path(plan)
    &&& forall|i: int| 0 <= i < plan.len() ==> is_final_path(list, #[trigger] plan[i])
    &&& forall|k: int| 0 <= k < list.len() ==> has_path(plan, (#[trigger] list[k]).relative_path)
}

/// The paths of a snapshot: each relative path once, in order; where one was
/// found several times, the last place counts.
pub fn plan_paths(list: &Vec<ScannedPath>) -> (plan: Vec<ScannedPath>)
    ensures
        is_path_plan(fields::views(list@), fields::views(plan@)),
{
    let ghost all = fields::views(list@);
    let ghost models = path_keys(all);
    let mut keys: Vec<Vec<u8>> = Vec::new();
    let mut i: usize = 0;
    assert(ordering::views(keys@) =~= models.take(0));
    while i < list.len()
        invariant
            i <= list@.len(),
            all == fields::views(list@),
            models == path_keys(all),
            ordering::views(keys@) == models.take(i as int),
        decreases list@.len() - i,
    {
        let ghost before = keys@;
        let key = fields::copy_bytes(list[i].relative_path.as_str().as_bytes());
        keys.push(key);
        proof {
            assert(all[i as int] == list@[i as int]@);
            assert(models[i as int] == key@);
            assert(ordering::views(keys@) =~= ordering::views(before).push(key@));
        }
        i += 1;
        assert(ordering::views(keys@) =~= models.take(i as int));
    }
    assert(models.take(i as int) =~= models);
    let order = ordering::stable_order(&keys);
    let ghost places = order@;
    let mut plan: Vec<ScannedPath> = Vec::new();
    let mut t: usize = 0;
    while t < order.len()
        invariant
            t <= order@.len(),
            order@ == places,
            all == fields::views(list@),
            models == path_keys(all),
            models.len() == list@.len(),
            ordering::views(keys@) == models,
            ordering::is_order(models, places),
            forall|a: int, b: int|
                0 <= a < b < plan@.len() ==> ordering::lex_lt(
                    path_key(#[trigger] plan@[a]@),
                    path_key(#[trigger] plan@[b]@),
                ),
            forall|a: int, s: int|
                0 <= a < plan@.len() && t <= s < places.len() ==> ordering::lex_lt(
                    path_key(#[trigger] plan@[a]@),
                    models[#[trigger] places[s] as int],
                ),
            forall|a: int| 0 <= a < plan@.len() ==> is_final_path(all, #[trigger] plan@[a]@),
            forall|s: int|
                0 <= s < t ==> (exists|a: int|
                    0 <= a < plan@.len() && path_key(#[trigger] plan@[a]@)
                        == models[#[trigger] places[s] as int]) || (t < places.len() && models[places[s] as int]
                    == models[places[t as int] as int]),
        decreases order@.len() - t,
    {
        let place: usize = order[t];
        proof {
            assert(places[t as int] < models.len());
            assert(models[place as int] == keys@[place as int]@);
        }
        let last = if t + 1 < order.len() {
            let next: usize = order[t + 1];
            assert(places[t + 1] < models.len());
            assert(models[next as int] == keys@[next as int]@);
            !text::same_bytes(keys[place].as_slice(), keys[next].as_slice())
        } else {
            true
        };
        if last {
            let path = ScannedPath {
                relative_path: list[place].relative_path.clone(),
                absolute_path: list[place].absolute_path.clone(),
            };
            proof {
                assert(path@ =~= all[place as int]);
                assert(path_key(path@) == models[place as int]);
                assert forall|s: int| t + 1 <= s < places.len() implies ordering::lex_lt(
                    path_key(path@),
                    models[#[trigger] places[s] as int],
                ) by {
                    lemma_later_key(models, places, t as int, s);
                }
                assert(is_last_of_path(all, place as int)) by {
                    assert forall|j: int| place < j < all.len() implies (
                    #[trigger] all[j]).relative_path != all[place as int].relative_path by {
                        ordering::lemma_order_covers(models, places, j);
                        let s = choose|s: int| 0 <= s < places.len() && #[trigger] places[s] == j;
                        assert(models[j] == path_key(all[j]));
                        if models[j] == models[place as int] {
                            if s < t {
                                assert(ordering::before(models, places[s] as int, places[t as int] as int));
                                ordering::lemma_lex_irreflexive(models[j]);
                            } else if s > t {
                                lemma_later_key(models, places, t as int, s);
                                ordering::lemma_lex_irreflexive(models[j]);
                            }
                        }
                    }
                }
            }
            let ghost before = plan@;
            plan.push(path);
            proof {
                assert(forall|a: int| 0 <= a < before.len() ==> plan@[a] == before[a]);
                assert(plan@[before.len() as int] == path);
                assert forall|s: int| 0 <= s < t + 1 implies (exists|a: int|
                    0 <= a < plan@.len() && path_key(#[trigger] plan@[a]@)
                        == models[#[trigger] places[s] as int]) || (t + 1 < places.len()
                    && models[places[s] as int] == models[places[t + 1] as int]) by {
                    if s < t {
                        if !(models[places[s] as int] == models[places[t as int] as int]) {
                            let a = choose|a: int|
                                0 <= a < before.len() && path_key(#[trigger] before[a]@)
                                    == models[places[s] as int];
                            assert(path_key(plan@[a]@) == models[places[s] as int]);
                        } else {
                            assert(path_key(plan@[before.len() as int]@)
                                == models[places[s] as int]);
                        }
                    } else {
                        assert(path_key(plan@[before.len() as int]@) == models[places[s] as int]);
                    }
                }
            }
        }
        t += 1;
    }
    proof {
        let result = fields::views(plan@);
        assert forall|k: int| 0 <= k < all.len() implies has_path(
            result,
            (#[trigger] all[k]).relative_path,
        ) by {
            ordering::lemma_order_covers(models, places, k);
            let s = choose|s: int| 0 <= s < places.len() && #[trigger] places[s] == k;
            let a = choose|a: int|
                0 <= a < plan@.len() && path_key(#[trigger] plan@[a]@) == models[places[s] as int];
            assert(result[a] == plan@[a]@);
            text::lemma_utf8_injective(result[a].relative_path, all[k].relative_path);
        }
        assert forall|i: int| 0 <= i < result.len() implies is_final_path(
            all,
            #[trigger] result[i],
        ) by {
            assert(result[i] == plan@[i]@);
        }
        assert forall|i: int, j: int| 0 <= i < j < result.len() implies ordering::lex_lt(
            path_key(#[trigger] result[i]),
            path_key(#[trigger] result[j]),
        ) by {
            assert(result[i] == plan@[i]@);
            assert(result[j] == plan@[j]@);
        }
    }
    plan
}

/// When the next key in an order differs, every later one stands behind.
proof fn lemma_later_key(models: Seq<Seq<u8>>, places: Seq<usize>, t: int, s: int)
    requires
        ordering::is_order(models, places),
        0 <= t < s < places.len(),
        models[places[t] as int] != models[places[t + 1] as int],
    ensures
        ordering::lex_lt(models[places[t] as int], models[places[s] as int]),
{
    assert(ordering::before(models, places[t] as int, places[t + 1] as int));
    if s > t + 1 {
        assert(ordering::before(models, places[t + 1] as int, places[s] as int));
        if ordering::lex_lt(models[places[t + 1] as int], models[places[s] as int]) {
            ordering::lemma_lex_transitive(
                models[places[t] as int],
                models[places[t + 1] as int],
                models[places[s] as int],
            );
        }
    }
}

/// A path of a snapshot and what the file system says of it.
#[derive(Debug)]
pub struct WorkItem {
    pub relative_path: String,
    pub absolute_path: String,
    pub kind: FileKind,
    pub size: u64,
    pub modified_ms: i64,
}

/// The model of a [`WorkItem`].
#[verifier::ext_equal]
pub struct WorkItemView {
    pub relative_path: Seq<char>,
    pub absolute_path: Seq<char>,
    pub kind: FileKind,
    pub size: u64,
    pub modified_ms: i64,
}

impl View for WorkItem {
    type V = WorkItemView;

    open spec fn view(&self) -> WorkItemView {
        WorkItemView {
            relative_path: self.relative_path@,
            absolute_path: self.absolute_path@,
            kind: self.kind,
            size: self.size,
            modified_ms: self.modified_ms,
        }
    }
}

/// The sum of two numbers, or the largest number where it does not fit.
pub open spec fn saturating(a: u64, b: u64) -> u64 {
    if a + b > u64::MAX {
        u64::MAX
    } else {
        (a + b) as u64
    }
}

/// The items that are not symbolic links.
pub open spec fn work_of(items: Seq<WorkItemView>) -> Seq<WorkItemView> {
    items.filter(|item: WorkItemView| item.kind != FileKind::Symlink)
}

/// The size of the files among some items.
pub open spec fn file_bytes(items: Seq<WorkItemView>) -> u64
    decreases items.len(),
{
    if items.len() == 0 {
        0
    } else if items.last().kind == FileKind::File {
        saturating(file_bytes(items.drop_last()), items.last().size)
    } else {
        file_bytes(items.drop_last())
    }
}

/// Leaves symbolic links out, and adds the sizes of the files up.
pub fn plan_work(items: Vec<WorkItem>) -> (plan: (Vec<WorkItem>, u64))
    ensures
        fields::views(plan.0@) == work_of(fields::views(items@)),
        plan.1 == file_bytes(fields::views(items@)),
{
    let ghost all = fields::views(items@);
    let ghost keep = |item: WorkItemView| item.kind != FileKind::Symlink;
    let mut work: Vec<WorkItem> = Vec::new();
    let mut total: u64 = 0;
    let mut i: usize = 0;
    assert(fields::views(work@) =~= all.take(0).filter(keep)) by {
        reveal(Seq::filter);
    }
    while i < items.len()
        invariant
            i <= items@.len(),
            all == fields::views(items@),
            keep == (|item: WorkItemView| item.kind != FileKind::Symlink),
            fields::views(work@) == all.take(i as int).filter(keep),
            total == file_bytes(all.take(i as int)),
        decreases items@.len() - i,
    {
        let item = &items[i];
        proof {
            assert(all.take(i + 1).drop_last() =~= all.take(i as int));
            assert(all.take(i + 1).last() == item@);
            reveal(Seq::filter);
        }
        if matches!(item.kind, FileKind::File) {
            total = if item.size > u64::MAX - total {
                u64::MAX
            } else {
                total + item.size
            };
        }
        if !matches!(item.kind, FileKind::Symlink) {
            let ghost before = work@;
            let copy = WorkItem {
                relative_path: item.relative_path.clone(),
                absolute_path: item.absolute_path.clone(),
                kind: item.kind,
                size: item.size,
                modified_ms: item.modified_ms,
            };
            work.push(copy);
            assert(copy@ =~= item@);
            assert(fields::views(work@) =~= fields::views(before).push(copy@));
        }
        i += 1;
    }
    assert(all.take(i as int) =~= all);
    (work, total)
}

/// A file with its hashes as an entry of a snapshot.
pub open spec fn hashed_file(
    item: WorkItemView,
    full_hash: Seq<u8>,
    chunks: Seq<ChunkHashView>,
) -> SnapshotFileView {
    SnapshotFileView {
        absolute_path: item.absolute_path,
        manifest: ManifestFileView {
            id: listing::path_id(item.relative_path),
            relative_path: item.relative_path,
            size: item.size,
            modified_ms: item.modified_ms,
            blake3: full_hash,
            chunks,
            is_dir: false,
        },
    }
}

/// A directory as an entry of a snapshot.
pub open spec fn directory_file(item: WorkItemView) -> SnapshotFileView {
    SnapshotFileView {
        absolute_path: item.absolute_path,
        manifest: ManifestFileView {
            id: listing::path_id(item.relative_path),
            relative_path: item.relative_path,
            size: 0,
            modified_ms: item.modified_ms,
            blake3: Seq::empty(),
            chunks: Seq::empty(),
            is_dir: true,
        },
    }
}

/// What is to be done for an item of a snapshot.
#[derive(Debug)]
pub enum FileStep {
    /// The entry is known; the flag tells whether stored hashes were used.
    Ready(SnapshotFile, bool),
    /// The file has to be read and hashed.
    Hash,
}

/// The entry of an item before its contents are read: the entry and whether
/// stored hashes were used, nothing where the contents have to be read, or why
/// the item is refused.
pub open spec fn begun_file(
    item: WorkItemView,
    cached: Option<HashCacheEntryView>,
    chunk_size: nat,
) -> Result<Option<(SnapshotFileView, bool)>, ErrorView> {
    match item.kind {
        FileKind::Directory => Ok(Some((directory_file(item), false))),
        FileKind::File => match cached {
            Some(entry) => if cache_fits(entry, item.size, item.modified_ms, chunk_size) {
                Ok(Some((hashed_file(item, entry.full_hash, entry.chunks), true)))
            } else {
                Ok(None)
            },
            None => Ok(None),
        },
        _ => Err(ErrorView::InvalidInput("快照中出现了不支持的文件类型"@)),
    }
}

/// The entry of an item, as far as it is known before its contents are read.
/// `cached` are the hashes stored under the item's key.
pub fn begin_file(item: &WorkItem, cached: Option<&HashCacheEntry>, chunk_size: usize) -> (step:
    Result<FileStep, LanFlowError>)
    ensures
        match begun_file(
            item@,
            match cached {
                Some(entry) => Some(entry@),
                None => None,
            },
            chunk_size as nat,
        ) {
            Ok(Some((expected, used))) => step matches Ok(FileStep::Ready(file, hit)) && file@
                == expected && hit == used,
            Ok(None) => step matches Ok(FileStep::Hash),
            Err(error) => step matches Err(e) && e@ == error,
        },
{
    match item.kind {
        FileKind::Directory => {
            let file = SnapshotFile {
                absolute_path: item.absolute_path.clone(),
                manifest: ManifestFile {
                    id: id_of_path(item.relative_path.as_str()),
                    relative_path: item.relative_path.clone(),
                    size: 0,
                    modified_ms: item.modified_ms,
                    blake3: Vec::new(),
                    chunks: Vec::new(),
                    is_dir: true,
                },
            };
            assert(file@ =~= directory_file(item@));
            Ok(FileStep::Ready(file, false))
        },
        FileKind::File => match cached {
            Some(entry) => if cache_matches(entry, item.size, item.modified_ms, chunk_size) {
                let file = file_with_hashes(
                    item,
                    fields::copy_bytes(entry.full_hash.as_slice()),
                    copy_chunks(&entry.chunks),
                );
                Ok(FileStep::Ready(file, true))
            } else {
                Ok(FileStep::Hash)
            },
            None => Ok(FileStep::Hash),
        },
        _ => Err(
            LanFlowError::InvalidInput("快照中出现了不支持的文件类型".to_owned()),
        ),
    }
}

/// Symbolic links and special files are not taken into a snapshot: what is
/// planned and not refused is a file or a directory.
pub proof fn law_only_files_and_directories_are_taken(
    items: Seq<WorkItemView>,
    i: int,
    cached: Option<HashCacheEntryView>,
    chunk_size: nat,
)
    requires
        0 <= i < work_of(items).len(),
        begun_file(work_of(items)[i], cached, chunk_size) is Ok,
    ensures
        work_of(items)[i].kind == FileKind::File || work_of(items)[i].kind == FileKind::Directory,
{
    broadcast use vstd::seq_lib::group_filter_ensures;

}

/// A copy of some chunks.
pub fn copy_chunks(chunks: &Vec<ChunkHash>) -> (copy: Vec<ChunkHash>)
    ensures
        fields::views(copy@) == fields::views(chunks@),
{
    let ghost all = fields::views(chunks@);
    let mut copy: Vec<ChunkHash> = Vec::new();
    let mut i: usize = 0;
    assert(fields::views(copy@) =~= all.take(0));
    while i < chunks.len()
        invariant
            i <= chunks@.len(),
            all == fields::views(chunks@),
            fields::views(copy@) == all.take(i as int),
        decreases chunks@.len() - i,
    {
        let ghost before = copy@;
        let chunk = chunks[i].clone();
        copy.push(chunk);
        i += 1;
        assert(fields::views(copy@) =~= fields::views(before).push(chunk@));
        assert(fields::views(copy@) =~= all.take(i as int));
    }
    assert(all.take(i as int) =~= all);
    copy
}

fn file_with_hashes(item: &WorkItem, full_hash: Vec<u8>, chunks: Vec<ChunkHash>) -> (file:
    SnapshotFile)
    ensures
        file@ == hashed_file(item@, full_hash@, fields::views(chunks@)),
{
    let file = SnapshotFile {
        absolute_path: item.absolute_path.clone(),
        manifest: ManifestFile {
            id: id_of_path(item.relative_path.as_str()),
            relative_path: item.relative_path.clone(),
            size: item.size,
            modified_ms: item.modified_ms,
            blake3: full_hash,
            chunks,
            is_dir: false,
        },
    };
    assert(file@ =~= hashed_file(item@, full_hash@, fields::views(chunks@)));
    file
}

/// An entry of a snapshot, and hashes to store for it under a key.
pub struct BuiltFile {
    pub file: SnapshotFile,
    pub update: Option<(String, HashCacheEntry)>,
}

/// The model of a [`BuiltFile`].
#[verifier::ext_equal]
pub struct BuiltFileView {
    pub file: SnapshotFileView,
    pub update: Option<(Seq<char>, HashCacheEntryView)>,
}

impl View for BuiltFile {
    type V = BuiltFileView;

    open spec fn view(&self) -> BuiltFileView {
        BuiltFileView {
            file: self.file@,
            update: match self.update {
                Some((key, entry)) => Some((key@, entry@)),
                None => None,
            },
        }
    }
}

/// The entry of a file that was read and hashed, and the hashes to store for
/// it, or why the file is refused. `size` and `modified_ms` are what the file
/// system says of it after that.
pub open spec fn finished_file(
    item: WorkItemView,
    cache_key: Seq<char>,
    full_hash: Seq<u8>,
    chunks: Seq<ChunkHashView>,
    size: u64,
    modified_ms: i64,
) -> Result<BuiltFileView, ErrorView> {
    if size == item.size && modified_ms == item.modified_ms {
        Ok(
            BuiltFileView {
                file: hashed_file(item, full_hash, chunks),
                update: Some(
                    (
                        cache_key,
                        HashCacheEntryView {
                            size: item.size,
                            modified_ms: item.modified_ms,
                            full_hash,
                            chunks,
                        },
                    ),
                ),
            },
        )
    } else {
        Err(
            ErrorView::InvalidInput(
                "源文件在准备快照期间发生变化: "@ + item.relative_path,
            ),
        )
    }
}

/// The entry of a file that was read and hashed. `size` and `modified_ms` are
/// what the file system says of it after that; where they changed, the file
/// was written to meanwhile and is refused.
pub fn finish_file(
    item: &WorkItem,
    cache_key: String,
    full_hash: Vec<u8>,
    chunks: Vec<ChunkHash>,
    size: u64,
    modified_ms: i64,
) -> (built: Result<BuiltFile, LanFlowError>)
    ensures
        size == item.size && modified_ms == item.modified_ms ==> (built matches Ok(b) && b@ == (
        BuiltFileView {
            file: hashed_file(item@, full_hash@, fields::views(chunks@)),
            update: Some(
                (
                    cache_key@,
                    HashCacheEntryView {
                        size: item.size,
                        modified_ms: item.modified_ms,
                        full_hash: full_hash@,
                        chunks: fields::views(chunks@),
                    },
                ),
            ),
        })),
        size != item.size || modified_ms != item.modified_ms ==> (built matches Err(e) && e@
            == ErrorView::InvalidInput(
            "源文件在准备快照期间发生变化: "@ + item.relative_path@,
        )),
        match finished_file(
            item@,
            cache_key@,
            full_hash@,
            fields::views(chunks@),
            size,
            modified_ms,
        ) {
            Ok(expected) => built matches Ok(b) && b@ == expected,
            Err(error) => built matches Err(e) && e@ == error,
        },
{
    if size != item.size || modified_ms != item.modified_ms {
        return Err(
            LanFlowError::InvalidInput(
                text::joined(
                    "源文件在准备快照期间发生变化: ",
                    item.relative_path.as_str(),
                ),
            ),
        );
    }
    let entry = HashCacheEntry {
        size,
        modified_ms,
        full_hash: fields::copy_bytes(full_hash.as_slice()),
        chunks: copy_chunks(&chunks),
    };
    assert(entry@ =~= (HashCacheEntryView {
        size: item.size,
        modified_ms: item.modified_ms,
        full_hash: full_hash@,
        chunks: fields::views(chunks@),
    }));
    let file = file_with_hashes(item, full_hash, chunks);
    Ok(BuiltFile { file, update: Some((cache_key, entry)) })
}

/// The hashes to store, of those entries that have some.
pub open spec fn updates_of(built: Seq<BuiltFileView>) -> Seq<(Seq<char>, HashCacheEntryView)>
    decreases built.len(),
{
    if built.len() == 0 {
        Seq::empty()
    } else {
        match built.last().update {
            Some(update) => updates_of(built.drop_last()).push(update),
            None => updates_of(built.drop_last()),
        }
    }
}

pub open spec fn update_views(updates: Seq<(String, HashCacheEntry)>) -> Seq<
    (Seq<char>, HashCacheEntryView),
> {
    updates.map_values(|update: (String, HashCacheEntry)| (update.0@, update.1@))
}

/// The snapshot that entries make up.
pub open spec fn snapshot_of(id: Seq<char>, built: Seq<BuiltFileView>) -> SnapshotView {
    SnapshotView { id, files: built.map_values(|b: BuiltFileView| b.file) }
}

/// The snapshot that the entries make up, and the hashes to store.
pub fn create_snapshot(snapshot_id: String, built: Vec<BuiltFile>) -> (result: (
    SnapshotRecord,
    Vec<(String, HashCacheEntry)>,
))
    ensures
        result.0.wf(),
        result.0@ == (SnapshotView {
            id: snapshot_id@,
            files: fields::views(built@).map_values(|b: BuiltFileView| b.file),
        }),
        result.0@ == snapshot_of(snapshot_id@, fields::views(built@)),
        update_views(result.1@) == updates_of(fields::views(built@)),
{
    let ghost all = fields::views(built@);
    let ghost whole = all.map_values(|b: BuiltFileView| b.file);
    let mut files: Vec<SnapshotFile> = Vec::new();
    let mut updates: Vec<(String, HashCacheEntry)> = Vec::new();
    let mut i: usize = 0;
    assert(fields::views(files@) =~= whole.take(0));
    assert(update_views(updates@) =~= updates_of(all.take(0)));
    while i < built.len()
        invariant
            i <= built@.len(),
            all == fields::views(built@),
            whole == all.map_values(|b: BuiltFileView| b.file),
            fields::views(files@) == whole.take(i as int),
            update_views(updates@) == updates_of(all.take(i as int)),
        decreases built@.len() - i,
    {
        let ghost before = files@;
        let ghost stored = updates@;
        let item = &built[i];
        let file = item.file.clone();
        files.push(file);
        proof {
            assert(fields::views(files@) =~= fields::views(before).push(file@));
            assert(all[i as int] == item@);
            assert(all.take(i + 1).drop_last() =~= all.take(i as int));
            assert(all.take(i + 1).last() == item@);
        }
        if let Some((key, entry)) = &item.update {
            let copy = HashCacheEntry {
                size: entry.size,
                modified_ms: entry.modified_ms,
                full_hash: fields::copy_bytes(entry.full_hash.as_slice()),
                chunks: copy_chunks(&entry.chunks),
            };
            assert(copy@ =~= entry@);
            let name = key.clone();
            updates.push((name, copy));
            assert(update_views(updates@) =~= update_views(stored).push((key@, entry@)));
        }
        i += 1;
        assert(fields::views(files@) =~= whole.take(i as int));
    }
    assert(all.take(i as int) =~= all);
    assert(whole.take(i as int) =~= whole);
    (SnapshotRecord::new(snapshot_id, files), updates)
}

// ---------------------------------------------------------------------------
// Laws on snapshots
// ---------------------------------------------------------------------------

proof fn lemma_total_prefix(chunks: Seq<ChunkHashView>, i: int)
    requires
        0 <= i < chunks.len(),
    ensures
        total_length(chunks.take(i)) + chunks[i].length <= total_length(chunks),
    decreases chunks.len(),
{
    let before = chunks.drop_last();
    if i < before.len() {
        lemma_total_prefix(before, i);
        assert(before.take(i) =~= chunks.take(i));
        assert(before[i] == chunks[i]);
    } else {
        assert(before =~= chunks.take(i));
    }
}

proof fn lemma_fitting_offsets(
    entry: HashCacheEntryView,
    size: u64,
    modified_ms: i64,
    chunk_size: nat,
    i: int,
)
    requires
        cache_fits(entry, size, modified_ms, chunk_size),
        0 <= i < entry.chunks.len(),
    ensures
        total_length(entry.chunks.take(i)) == i * chunk_size,
    decreases i,
{
    let chunks = entry.chunks;
    if i == 0 {
        assert(chunks.take(0) =~= Seq::empty());
        assert(0 * chunk_size == 0) by (nonlinear_arith);
    } else {
        lemma_fitting_offsets(entry, size, modified_ms, chunk_size, i - 1);
        assert(chunks.take(i).drop_last() =~= chunks.take(i - 1));
        assert(chunks.take(i).last() == chunks[i - 1]);
        assert(chunk_fits(chunks, i - 1, size as nat, chunk_size));
        assert(chunk_fits(chunks, i, size as nat, chunk_size));
        lemma_total_prefix(chunks, i);
        lemma_mul_is_distributive_add_other_way(chunk_size as int, i - 1, 1);
    }
}

/// The chunks of some contents are numbered from zero, cut at multiples of the
/// chunk size and as long as that, but for the last one, which holds the rest;
/// each has the hash of the bytes it stands for.
pub proof fn law_chunks_are_cut_at_multiples(
    chunks: Seq<ChunkHashView>,
    data: Seq<u8>,
    chunk_size: nat,
    i: int,
)
    requires
        are_chunks_of(chunks, data, chunk_size),
        0 < chunk_size <= u32::MAX,
        chunks.len() <= u32::MAX,
        data.len() <= u64::MAX,
        0 <= i < chunks.len(),
    ensures
        chunks[i].index == i,
        chunks[i].offset == i * chunk_size,
        chunks[i].offset + chunks[i].length <= data.len(),
        i + 1 < chunks.len() ==> chunks[i].length == chunk_size,
        i + 1 == chunks.len() ==> 0 < chunks[i].length <= chunk_size && chunks[i].offset
            + chunks[i].length == data.len(),
        chunks[i].blake3 == hash::blake3_digest(
            data.subrange(chunks[i].offset as int, chunks[i].offset + chunks[i].length),
        ),
{
    lemma_total_of_chunks(chunks, data, chunk_size, i);
    lemma_mul_is_distributive_add_other_way(chunk_size as int, i, 1);
    lemma_mul_inequality(0, i, chunk_size as int);
    assert(chunks[i] == chunk_at(data, chunk_size, i as nat));
    if i + 1 < chunks.len() {
        lemma_total_of_chunks(chunks, data, chunk_size, i + 1);
    }
}

/// Stored hashes are used for a file only where they were made when it had the
/// size and the time it has now, and where its chunks are numbered from zero,
/// cut at multiples of the chunk size and reach to its end. The entry then
/// holds just these hashes, and tells the path, the size and the time of the
/// file.
pub proof fn law_used_hashes_are_of_this_file(
    item: WorkItemView,
    cached: Option<HashCacheEntryView>,
    chunk_size: nat,
    file: SnapshotFileView,
)
    requires
        begun_file(item, cached, chunk_size) == Ok::<_, ErrorView>(Some((file, true))),
    ensures
        item.kind == FileKind::File,
        cached matches Some(entry) && {
            &&& entry.size == item.size
            &&& entry.modified_ms == item.modified_ms
            &&& entry.full_hash.len() == 32
            &&& file.manifest.blake3 == entry.full_hash
            &&& file.manifest.chunks == entry.chunks
            &&& forall|i: int|
                0 <= i < entry.chunks.len() ==> {
                    &&& (#[trigger] entry.chunks[i]).index == i
                    &&& entry.chunks[i].offset == i * chunk_size
                    &&& entry.chunks[i].blake3.len() == 32
                    &&& i + 1 < entry.chunks.len() ==> entry.chunks[i].length == chunk_size
                    &&& i + 1 == entry.chunks.len() ==> 0 < entry.chunks[i].length <= chunk_size
                        && entry.chunks[i].offset + entry.chunks[i].length == item.size
                }
            &&& entry.chunks.len() == 0 ==> item.size == 0
        },
        file.absolute_path == item.absolute_path,
        file.manifest.relative_path == item.relative_path,
        file.manifest.size == item.size,
        file.manifest.modified_ms == item.modified_ms,
        !file.manifest.is_dir,
{
    let entry = cached->Some_0;
    let chunks = entry.chunks;
    assert forall|i: int| 0 <= i < chunks.len() implies {
        &&& (#[trigger] chunks[i]).index == i
        &&& chunks[i].offset == i * chunk_size
        &&& chunks[i].blake3.len() == 32
        &&& i + 1 < chunks.len() ==> chunks[i].length == chunk_size
        &&& i + 1 == chunks.len() ==> 0 < chunks[i].length <= chunk_size && chunks[i].offset
            + chunks[i].length == item.size
    } by {
        assert(chunk_fits(chunks, i, item.size as nat, chunk_size));
        lemma_fitting_offsets(entry, item.size, item.modified_ms, chunk_size, i);
        if i + 1 < chunks.len() {
            assert(chunk_fits(chunks, i + 1, item.size as nat, chunk_size));
            lemma_total_prefix(chunks, i + 1);
            assert(chunks.take(i + 1).drop_last() =~= chunks.take(i));
            assert(chunks.take(i + 1).last() == chunks[i]);
        } else {
            assert(chunks.drop_last() =~= chunks.take(i));
        }
    }
}

/// A file of which nothing is stored, or only what it was at another size or
/// time, is read again.
pub proof fn law_changed_files_are_read_again(
    item: WorkItemView,
    cached: Option<HashCacheEntryView>,
    chunk_size: nat,
)
    requires
        item.kind == FileKind::File,
        cached matches Some(entry) ==> entry.size != item.size || entry.modified_ms
            != item.modified_ms,
    ensures
        begun_file(item, cached, chunk_size) matches Ok(None),
{
}

/// What was stored of a file when a snapshot read it is what the next snapshot
/// with that chunk size uses, as long as the file keeps its size and its time:
/// the two give the same entry.
pub proof fn law_unchanged_files_are_not_read_again(
    item: WorkItemView,
    cache_key: Seq<char>,
    data: Seq<u8>,
    chunks: Seq<ChunkHashView>,
    chunk_size: nat,
    built: BuiltFileView,
)
    requires
        item.kind == FileKind::File,
        item.size == data.len(),
        are_chunks_of(chunks, data, chunk_size),
        forall|i: int| 0 <= i < chunks.len() ==> (#[trigger] chunks[i]).blake3.len() == 32,
        hash::blake3_digest(data).len() == 32,
        0 < chunk_size <= u32::MAX,
        chunks.len() <= u32::MAX,
        finished_file(
            item,
            cache_key,
            hash::blake3_digest(data),
            chunks,
            item.size,
            item.modified_ms,
        ) == Ok::<_, ErrorView>(built),
    ensures
        built.update matches Some((key, entry)) && key == cache_key && begun_file(
            item,
            Some(entry),
            chunk_size,
        ) == Ok::<_, ErrorView>(Some((built.file, true))),
{
    law_fresh_hashes_fit(built.update->Some_0.1, data, chunk_size);
}

/// A file that was read is taken in exactly where its size and its time did
/// not change meanwhile; the entry then tells its path, size, time and hashes.
pub proof fn law_files_that_change_are_refused(
    item: WorkItemView,
    cache_key: Seq<char>,
    full_hash: Seq<u8>,
    chunks: Seq<ChunkHashView>,
    size: u64,
    modified_ms: i64,
)
    ensures
        match finished_file(item, cache_key, full_hash, chunks, size, modified_ms) {
            Ok(built) => {
                &&& size == item.size && modified_ms == item.modified_ms
                &&& built.file.absolute_path == item.absolute_path
                &&& built.file.manifest.relative_path == item.relative_path
                &&& built.file.manifest.size == item.size
                &&& built.file.manifest.modified_ms == item.modified_ms
                &&& built.file.manifest.blake3 == full_hash
                &&& built.file.manifest.chunks == chunks
                &&& !built.file.manifest.is_dir
            },
            Err(error) => {
                &&& size != item.size || modified_ms != item.modified_ms
                &&& error is InvalidInput
            },
        },
{
}

/// A directory becomes an entry without contents, whatever is stored under its
/// key, and no other thing does.
pub proof fn law_directories_have_no_contents(
    item: WorkItemView,
    cached: Option<HashCacheEntryView>,
    chunk_size: nat,
)
    ensures
        item.kind == FileKind::Directory <==> (begun_file(item, cached, chunk_size) matches Ok(
            Some((_, used)),
        ) && !used),
        begun_file(item, cached, chunk_size) matches Ok(Some((file, used))) ==> (!used ==> {
            &&& file.manifest.is_dir
            &&& file.manifest.size == 0
            &&& file.manifest.chunks.len() == 0
            &&& file.manifest.blake3.len() == 0
            &&& file.absolute_path == item.absolute_path
            &&& file.manifest.relative_path == item.relative_path
            &&& file.manifest.modified_ms == item.modified_ms
        }),
{
}

/// An item has the same identity in every snapshot and in every list: that of
/// its relative path, however its hashes came about.
pub proof fn law_identity_is_that_of_the_path(
    item: WorkItemView,
    cached: Option<HashCacheEntryView>,
    chunk_size: nat,
    other: WorkItemView,
    cache_key: Seq<char>,
    full_hash: Seq<u8>,
    chunks: Seq<ChunkHashView>,
    shown: listing::RawEntryView,
    directory: Seq<char>,
)
    requires
        item.relative_path == other.relative_path,
        item.relative_path == listing::shown_entry(shown, directory).relative_path,
    ensures
        begun_file(item, cached, chunk_size) matches Ok(Some((file, _))) ==> {
            &&& finished_file(
                other,
                cache_key,
                full_hash,
                chunks,
                other.size,
                other.modified_ms,
            ) matches Ok(built)
            &&& built.file.manifest.id == file.manifest.id
            &&& listing::shown_entry(shown, directory).id == file.manifest.id
        },
{
}

/// Of the things found, all but the symbolic links are taken in, in the order
/// in which they were found.
pub proof fn law_only_links_are_left_out(items: Seq<WorkItemView>, item: WorkItemView)
    ensures
        work_of(Seq::empty()).len() == 0,
        work_of(items.push(item)) == if item.kind == FileKind::Symlink {
            work_of(items)
        } else {
            work_of(items).push(item)
        },
{
    reveal(Seq::filter);
    assert(items.push(item).drop_last() =~= items);
    assert(work_of(Seq::empty()) =~= Seq::empty());
}

/// The size of a snapshot is the sum of the sizes of its files, where it can be
/// counted.
pub proof fn law_sizes_add_up(items: Seq<WorkItemView>, item: WorkItemView)
    ensures
        file_bytes(Seq::empty()) == 0,
        item.kind != FileKind::File ==> file_bytes(items.push(item)) == file_bytes(items),
        item.kind == FileKind::File && file_bytes(items) + item.size <= u64::MAX ==> file_bytes(
            items.push(item),
        ) == file_bytes(items) + item.size,
        item.kind == FileKind::File && file_bytes(items) + item.size > u64::MAX ==> file_bytes(
            items.push(item),
        ) == u64::MAX,
{
    assert(items.push(item).drop_last() =~= items);
}

/// A file of a snapshot is found by its identity: whatever is found has it,
/// something is found where a file has it, and the last such file counts.
pub proof fn law_files_are_found_by_identity(snapshot: SnapshotView, id: Seq<char>, i: int)
    ensures
        file_with(snapshot, id) matches Some(file) ==> file.manifest.id == id
            && snapshot.files.contains(file),
        file_with(snapshot, id) is None ==> forall|j: int|
            0 <= j < snapshot.files.len() ==> (#[trigger] snapshot.files[j]).manifest.id != id,
        0 <= i < snapshot.files.len() && snapshot.files[i].manifest.id == id && (forall|j: int|
            i < j < snapshot.files.len() ==> (#[trigger] snapshot.files[j]).manifest.id != id)
            ==> file_with(snapshot, id) == Some(snapshot.files[i]),
{
    lemma_last_position(snapshot.files, id);
    if 0 <= i < snapshot.files.len() && snapshot.files[i].manifest.id == id && (forall|j: int|
        i < j < snapshot.files.len() ==> (#[trigger] snapshot.files[j]).manifest.id != id) {
        lemma_last_one(snapshot.files, id, i);
    }
}

proof fn lemma_last_one(files: Seq<SnapshotFileView>, id: Seq<char>, i: int)
    requires
        0 <= i < files.len(),
        files[i].manifest.id == id,
        forall|j: int| i < j < files.len() ==> (#[trigger] files[j]).manifest.id != id,
    ensures
        last_position(files, id) == Some(i),
    decreases files.len(),
{
    if i < files.len() - 1 {
        assert(files[files.len() - 1].manifest.id != id);
        assert forall|j: int| i < j < files.drop_last().len() implies (
        #[trigger] files.drop_last()[j]).manifest.id != id by {
            assert(files.drop_last()[j] == files[j]);
        }
        lemma_last_one(files.drop_last(), id, i);
    }
}

/// The manifest of a snapshot tells what is known of each of its files, in
/// their order, under the name of the snapshot and without an error.
pub proof fn law_manifest_tells_every_file(snapshot: SnapshotView)
    ensures
        manifest_of(snapshot).snapshot_id == snapshot.id,
        manifest_of(snapshot).error.len() == 0,
        manifest_of(snapshot).files.len() == snapshot.files.len(),
        forall|i: int|
            0 <= i < snapshot.files.len() ==> #[trigger] manifest_of(snapshot).files[i]
                == snapshot.files[i].manifest,
{
}

/// A snapshot holds every entry that was built for it, in their order, and
/// nothing else.
pub proof fn law_snapshot_holds_all_entries(id: Seq<char>, built: Seq<BuiltFileView>, i: int)
    ensures
        snapshot_of(id, built).id == id,
        snapshot_of(id, built).files.len() == built.len(),
        0 <= i < built.len() ==> snapshot_of(id, built).files[i] == built[i].file,
{
}

/// The hashes of every entry that has new ones are stored, in their order.
pub proof fn law_new_hashes_are_stored(built: Seq<BuiltFileView>, file: BuiltFileView)
    ensures
        updates_of(Seq::empty()).len() == 0,
        file.update is None ==> updates_of(built.push(file)) == updates_of(built),
        file.update matches Some(update) ==> updates_of(built.push(file)) == updates_of(built).push(
            update,
        ),
{
    assert(built.push(file).drop_last() =~= built);
}

/// A chunk size is used as it was asked for where it lies between one and 64
/// mebibytes; of others the nearer bound is used.
pub proof fn law_chunk_sizes_are_bounded(requested: u32, other: u32)
    ensures
        1024 * 1024 <= clamped_chunk_size(requested) <= 64 * 1024 * 1024,
        1024 * 1024 <= requested <= 64 * 1024 * 1024 ==> clamped_chunk_size(requested) == requested,
        requested <= other ==> clamped_chunk_size(requested) <= clamped_chunk_size(other),
{
}

/// What is found in a directory has a path of the names that lead to it from
/// there; links and special files have none, and what lies elsewhere is
/// refused.
pub proof fn law_found_paths_lead_from_the_root(
    root: Seq<Seq<char>>,
    rest: Seq<Seq<char>>,
    elsewhere: Seq<char>,
)
    requires
        forall|k: int|
            0 <= k < root.len() ==> (#[trigger] root[k]).len() > 0 && root[k] != seq!['.'],
        forall|k: int, i: int|
            0 <= k < root.len() && 0 <= i < root[k].len() ==> #[trigger] root[k][i] != '/',
        forall|k: int|
            0 <= k < rest.len() ==> (#[trigger] rest[k]).len() > 0 && rest[k] != seq!['.'],
        forall|k: int, i: int|
            0 <= k < rest.len() && 0 <= i < rest[k].len() ==> #[trigger] rest[k][i] != '/'
                && rest[k][i] != '\\',
        !paths::is_under(elsewhere, paths::slashed(root)),
    ensures
        relative_path(
            paths::slashed(root),
            paths::slashed(root + rest),
            FileKind::File,
        ) == Ok::<Option<Seq<char>>, ErrorView>(Some(paths::slashed(rest))),
        relative_path(
            paths::slashed(root),
            paths::slashed(root + rest),
            FileKind::Directory,
        ) == Ok::<Option<Seq<char>>, ErrorView>(Some(paths::slashed(rest))),
        relative_path(paths::slashed(root), elsewhere, FileKind::File) is Err,
        relative_path(paths::slashed(root), elsewhere, FileKind::Directory) is Err,
        relative_path(paths::slashed(root), elsewhere, FileKind::Symlink) matches Ok(None),
        relative_path(paths::slashed(root), elsewhere, FileKind::Other) matches Ok(None),
{
    let list = root + rest;
    assert forall|k: int| 0 <= k < list.len() implies (#[trigger] list[k]).len() > 0 && list[k]
        != seq!['.'] by {
        if k < root.len() {
            assert(list[k] == root[k]);
        } else {
            assert(list[k] == rest[k - root.len()]);
        }
    }
    assert forall|k: int, i: int|
        0 <= k < list.len() && 0 <= i < list[k].len() implies #[trigger] list[k][i] != '/' by {
        if k < root.len() {
            assert(list[k] == root[k]);
            assert(root[k][i] != '/');
        } else {
            assert(list[k] == rest[k - root.len()]);
            assert(rest[k - root.len()][i] != '/');
        }
    }
    paths::law_below_goes_by_whole_names(root, list);
    paths::law_slashed_names_are_parts(root);
    paths::law_slashed_names_are_parts(list);
    assert(list == root + rest);
    assert(list.skip(root.len() as int) =~= rest);
    lemma_no_backslash(rest);
    assert(forward_slashes(paths::slashed(rest)) =~= paths::slashed(rest));
}

proof fn lemma_no_backslash(list: Seq<Seq<char>>)
    requires
        forall|k: int, i: int|
            0 <= k < list.len() && 0 <= i < list[k].len() ==> #[trigger] list[k][i] != '\\',
    ensures
        forall|i: int| 0 <= i < paths::slashed(list).len() ==> #[trigger] paths::slashed(list)[i]
            != '\\',
    decreases list.len(),
{
    if list.len() > 0 {
        let before = list.drop_last();
        assert forall|k: int, i: int|
            0 <= k < before.len() && 0 <= i < before[k].len() implies #[trigger] before[k][i]
            != '\\' by {
            assert(before[k] == list[k]);
            assert(list[k][i] != '\\');
        }
        lemma_no_backslash(before);
        let last = list[list.len() - 1];
        assert forall|i: int| 0 <= i < last.len() implies #[trigger] last[i] != '\\' by {
            assert(list[list.len() - 1][i] != '\\');
        }
        let text = paths::slashed(list);
        let front = paths::slashed(before);
        assert forall|i: int| 0 <= i < text.len() implies #[trigger] text[i] != '\\' by {
            if list.len() > 1 {
                if i < front.len() {
                    assert(text[i] == front[i]);
                } else if i > front.len() {
                    assert(text[i] == last[i - front.len() - 1]);
                }
            } else {
                assert(text[i] == last[i]);
            }
        }
    }
}

/// Where a path was found several times, the snapshot takes the place that
/// came last.
pub proof fn law_last_place_counts(
    list: Seq<ScannedPathView>,
    path: ScannedPathView,
    plan: Seq<ScannedPathView>,
)
    requires
        is_path_plan(list.push(path), plan),
    ensures
        plan.contains(path),
{
    let all = list.push(path);
    let n = list.len() as int;
    assert(all[n] == path);
    assert(has_path(plan, all[n].relative_path));
    let i = choose|i: int|
        0 <= i < plan.len() && (#[trigger] plan[i]).relative_path == path.relative_path;
    assert(is_final_path(all, plan[i]));
    let k = choose|k: int|
        0 <= k < all.len() && #[trigger] all[k] == plan[i] && is_last_of_path(all, k);
    if k < n {
        assert(all[n].relative_path != all[k].relative_path);
    }
}

/// Every path that was found is in the snapshot, each once, and nothing else
/// is.
pub proof fn law_each_path_is_taken_once(
    list: Seq<ScannedPathView>,
    plan: Seq<ScannedPathView>,
    relative_path: Seq<char>,
)
    requires
        is_path_plan(list, plan),
    ensures
        (exists|k: int|
            0 <= k < list.len() && (#[trigger] list[k]).relative_path == relative_path) <==> (
        exists|i: int|
            0 <= i < plan.len() && (#[trigger] plan[i]).relative_path == relative_path),
        forall|i: int| 0 <= i < plan.len() ==> list.contains(#[trigger] plan[i]),
        forall|i: int, j: int|
            0 <= i < j < plan.len() ==> (#[trigger] plan[i]).relative_path != (
            #[trigger] plan[j]).relative_path,
{
    if exists|k: int| 0 <= k < list.len() && (#[trigger] list[k]).relative_path == relative_path {
        let k = choose|k: int|
            0 <= k < list.len() && (#[trigger] list[k]).relative_path == relative_path;
        assert(has_path(plan, list[k].relative_path));
    }
    assert forall|i: int| 0 <= i < plan.len() implies list.contains(#[trigger] plan[i]) by {
        assert(is_final_path(list, plan[i]));
    }
    if exists|i: int| 0 <= i < plan.len() && (#[trigger] plan[i]).relative_path == relative_path {
        let i = choose|i: int|
            0 <= i < plan.len() && (#[trigger] plan[i]).relative_path == relative_path;
        assert(list.contains(plan[i]));
        let k = list.index_of(plan[i]);
        assert(list[k].relative_path == relative_path);
    }
    assert forall|i: int, j: int| 0 <= i < j < plan.len() implies (#[trigger] plan[i]).relative_path
        != (#[trigger] plan[j]).relative_path by {
        ordering::lemma_lex_irreflexive(path_key(plan[i]));
    }
}

/// Paths are written with slashes alone; nothing else of them changes.
pub proof fn law_paths_have_slashes_alone(path: Seq<char>, i: int)
    ensures
        forward_slashes(path).len() == path.len(),
        !forward_slashes(path).contains('\\'),
        0 <= i < path.len() && path[i] != '\\' ==> forward_slashes(path)[i] == path[i],
        0 <= i < path.len() && path[i] == '\\' ==> forward_slashes(path)[i] == '/',
{
}

// ---------------------------------------------------------------------------
// Telling how far a snapshot has come
// ---------------------------------------------------------------------------

/// How far a snapshot has come.
#[derive(Debug)]
pub struct SnapshotBuildProgress {
    pub snapshot_id: String,
    pub phase: String,
    pub scanned_entries: u64,
    pub total_entries: u64,
    pub prepared_bytes: u64,
    pub total_bytes: u64,
    pub cache_hits: u64,
    pub current_path: String,
    pub hash_workers: u32,
    pub speed_bps: u64,
}

/// The model of a [`SnapshotBuildProgress`].
#[verifier::ext_equal]
pub struct SnapshotBuildProgressView {
    pub snapshot_id: Seq<char>,
    pub phase: Seq<char>,
    pub scanned_entries: u64,
    pub total_entries: u64,
    pub prepared_bytes: u64,
    pub total_bytes: u64,
    pub cache_hits: u64,
    pub current_path: Seq<char>,
    pub hash_workers: u32,
    pub speed_bps: u64,
}

impl View for SnapshotBuildProgress {
    type V = SnapshotBuildProgressView;

    open spec fn view(&self) -> SnapshotBuildProgressView {
        SnapshotBuildProgressView {
            snapshot_id: self.snapshot_id@,
            phase: self.phase@,
            scanned_entries: self.scanned_entries,
            total_entries: self.total_entries,
            prepared_bytes: self.prepared_bytes,
            total_bytes: self.total_bytes,
            cache_hits: self.cache_hits,
            current_path: self.current_path@,
            hash_workers: self.hash_workers,
            speed_bps: self.speed_bps,
        }
    }
}

/// How far the scan for files has come.
pub fn scanning_progress(
    snapshot_id: &str,
    scanned_entries: u64,
    current_path: &str,
    hash_workers: u32,
) -> (progress: SnapshotBuildProgress)
    ensures
        progress@ == (SnapshotBuildProgressView {
            snapshot_id: snapshot_id@,
            phase: "scanning"@,
            scanned_entries,
            total_entries: 0,
            prepared_bytes: 0,
            total_bytes: 0,
            cache_hits: 0,
            current_path: current_path@,
            hash_workers,
            speed_bps: 0,
        }),
{
    SnapshotBuildProgress {
        snapshot_id: snapshot_id.to_owned(),
        phase: "scanning".to_owned(),
        scanned_entries,
        total_entries: 0,
        prepared_bytes: 0,
        total_bytes: 0,
        cache_hits: 0,
        current_path: current_path.to_owned(),
        hash_workers,
        speed_bps: 0,
    }
}

/// What was counted while files are hashed.
#[derive(Clone, Copy, Debug, PartialEq, Eq, Structural)]
pub struct HashProgress {
    pub total_entries: u64,
    pub total_bytes: u64,
    pub hash_workers: u32,
    /// Bytes of files that are done, read or not.
    pub prepared_bytes: u64,
    /// Bytes that were read.
    pub hashed_bytes: u64,
    /// Files whose stored hashes were used.
    pub cache_hits: u64,
}

impl HashProgress {
    pub fn new(total_entries: u64, total_bytes: u64, hash_workers: u32) -> (progress: HashProgress)
        ensures
            progress == (HashProgress {
                total_entries,
                total_bytes,
                hash_workers,
                prepared_bytes: 0,
                hashed_bytes: 0,
                cache_hits: 0,
            }),
    {
        HashProgress {
            total_entries,
            total_bytes,
            hash_workers,
            prepared_bytes: 0,
            hashed_bytes: 0,
            cache_hits: 0,
        }
    }

    /// Counts bytes that are done. A file whose stored hashes were used counts
    /// as a hit, and its bytes were not read.
    pub fn add(&mut self, bytes: u64, cache_hit: bool)
        requires
            old(self).prepared_bytes + bytes <= u64::MAX,
            !cache_hit ==> old(self).hashed_bytes + bytes <= u64::MAX,
            cache_hit ==> old(self).cache_hits < u64::MAX,
        ensures
            *final(self) == (HashProgress {
                prepared_bytes: (old(self).prepared_bytes + bytes) as u64,
                hashed_bytes: if cache_hit {
                    old(self).hashed_bytes
                } else {
                    (old(self).hashed_bytes + bytes) as u64
                },
                cache_hits: if cache_hit {
                    (old(self).cache_hits + 1) as u64
                } else {
                    old(self).cache_hits
                },
                ..*old(self)
            }),
    {
        self.prepared_bytes = self.prepared_bytes + bytes;
        if cache_hit {
            self.cache_hits = self.cache_hits + 1;
        } else {
            self.hashed_bytes = self.hashed_bytes + bytes;
        }
    }

    /// What is told of the count, given the speed.
    pub fn report(&self, snapshot_id: &str, current_path: &str, speed_bps: u64) -> (progress:
        SnapshotBuildProgress)
        ensures
            progress@ == (SnapshotBuildProgressView {
                snapshot_id: snapshot_id@,
                phase: "hashing"@,
                scanned_entries: self.total_entries,
                total_entries: self.total_entries,
                prepared_bytes: self.prepared_bytes,
                total_bytes: self.total_bytes,
                cache_hits: self.cache_hits,
                current_path: current_path@,
                hash_workers: self.hash_workers,
                speed_bps,
            }),
    {
        SnapshotBuildProgress {
            snapshot_id: snapshot_id.to_owned(),
            phase: "hashing".to_owned(),
            scanned_entries: self.total_entries,
            total_entries: self.total_entries,
            prepared_bytes: self.prepared_bytes,
            total_bytes: self.total_bytes,
            cache_hits: self.cache_hits,
            current_path: current_path.to_owned(),
            hash_workers: self.hash_workers,
            speed_bps,
        }
    }
}

/// The milliseconds since 1970 that a file system or a clock gives; zero where
/// it gives none or an earlier time.
pub fn epoch_ms(millis: Option<u128>) -> (ms: i64)
    ensures
        ms == match millis {
            Some(n) => n as i64,
            None => 0,
        },
{
    match millis {
        Some(n) => #[verifier::truncate] (n as i64),
        None => 0,
    }
}

} // verus!
