//! Downloads: which chunks are still missing, what happens to files that are
//! in the way, when to try again, and what is reported.

use vstd::hash_map::StringHashMap;
use vstd::prelude::*;
use vstd::slice::slice_subrange;

use crate::error::{ErrorView, IoError, IoErrorKind, IoErrorView, LanFlowError};
use crate::fields;
use crate::message;
use crate::models::{
    ConflictPolicy,
    PerformanceSettings,
    TaskDto,
    TaskDtoView,
    TaskProgressEvent,
    TaskProgressEventView,
};
use crate::outside::crypto;
use crate::outside::hash;
use crate::paths;
use crate::snapshot;
use crate::snapshot::copy_chunks;
use crate::text;
use crate::wire::snapshot::{
    ChunkHash,
    ChunkHashView,
    ManifestFile,
    ManifestFileView,
    SnapshotManifest,
};

verus! {

// ---------------------------------------------------------------------------
// Which chunks are there
// ---------------------------------------------------------------------------

/// Whether a bit is set; bits behind the end are not.
pub open spec fn bit(bitmap: Seq<u8>, index: nat) -> bool {
    index / 8 < bitmap.len() && bitmap[(index / 8) as int] & (1u8 << ((index % 8) as u8)) != 0
}

/// Whether a bit is set.
pub fn bit_is_set(bitmap: &[u8], index: usize) -> (set: bool)
    ensures
        set == bit(bitmap@, index as nat),
{
    let place: usize = index / 8;
    if place >= bitmap.len() {
        return false;
    }
    let shift: u8 = (index % 8) as u8;
    let mask: u8 = 1u8 << shift;
    bitmap[place] & mask != 0
}

proof fn lemma_set_bit(byte: u8, k: u8, j: u8)
    requires
        k < 8,
        j < 8,
    ensures
        ((byte | (1u8 << k)) & (1u8 << j) != 0) == (j == k || byte & (1u8 << j) != 0),
{
    assert(((byte | (1u8 << k)) & (1u8 << j) != 0) == (j == k || byte & (1u8 << j) != 0))
        by (bit_vector)
        requires
            k < 8,
            j < 8,
    ;
}

proof fn lemma_clear_bit(byte: u8, k: u8, j: u8)
    requires
        k < 8,
        j < 8,
    ensures
        ((byte & !(1u8 << k)) & (1u8 << j) != 0) == (j != k && byte & (1u8 << j) != 0),
{
    assert(((byte & !(1u8 << k)) & (1u8 << j) != 0) == (j != k && byte & (1u8 << j) != 0))
        by (bit_vector)
        requires
            k < 8,
            j < 8,
    ;
}

proof fn lemma_zero_byte(j: u8)
    ensures
        0u8 & (1u8 << j) == 0,
{
    assert(0u8 & (1u8 << j) == 0) by (bit_vector);
}

/// No bit of a bitmap of zeros is set.
pub proof fn lemma_blank(bitmap: Seq<u8>, j: nat)
    requires
        forall|i: int| 0 <= i < bitmap.len() ==> bitmap[i] == 0,
    ensures
        !bit(bitmap, j),
{
    lemma_zero_byte((j % 8) as u8);
}

/// Some bit of a bitmap is set where a byte of it is not zero.
pub proof fn lemma_bit_of_byte(bitmap: Seq<u8>, i: int)
    requires
        0 <= i < bitmap.len(),
        bitmap[i] != 0,
    ensures
        exists|j: nat| bit(bitmap, j),
{
    let byte = bitmap[i];
    assert(byte & (1u8 << 0u8) != 0 || byte & (1u8 << 1u8) != 0 || byte & (1u8 << 2u8) != 0 || byte
        & (1u8 << 3u8) != 0 || byte & (1u8 << 4u8) != 0 || byte & (1u8 << 5u8) != 0 || byte & (1u8
        << 6u8) != 0 || byte & (1u8 << 7u8) != 0) by (bit_vector)
        requires
            byte != 0,
    ;
    let n = i as nat;
    assert(bit(bitmap, 8 * n) || bit(bitmap, 8 * n + 1) || bit(bitmap, 8 * n + 2) || bit(
        bitmap,
        8 * n + 3,
    ) || bit(bitmap, 8 * n + 4) || bit(bitmap, 8 * n + 5) || bit(bitmap, 8 * n + 6) || bit(
        bitmap,
        8 * n + 7,
    ));
}

/// The length of a bitmap of a given length that is made to hold a bit.
pub open spec fn grown_len(len: nat, index: usize) -> nat {
    if index / 8 < len {
        len
    } else {
        (index / 8 + 1) as nat
    }
}

/// Whether `after` is `before` with a bit set; it grows where it is too short.
pub open spec fn is_marked(before: Seq<u8>, after: Seq<u8>, index: usize) -> bool {
    &&& forall|j: nat| #[trigger] bit(after, j) == (j == index || bit(before, j))
    &&& after.len() == grown_len(before.len(), index)
}

/// Sets a bit; the bitmap grows where it is too short.
pub fn set_bit(bitmap: &mut Vec<u8>, index: usize)
    ensures
        is_marked(old(bitmap)@, final(bitmap)@, index),
{
    let ghost before = bitmap@;
    let place: usize = index / 8;
    if place >= bitmap.len() {
        bitmap.resize(place + 1, 0);
    }
    let ghost grown = bitmap@;
    let shift: u8 = (index % 8) as u8;
    let mask: u8 = 1u8 << shift;
    let byte: u8 = bitmap[place] | mask;
    bitmap.set(place, byte);
    proof {
        assert forall|j: nat| #[trigger] bit(bitmap@, j) == (j == index || bit(before, j)) by {
            lemma_zero_byte((j % 8) as u8);
            lemma_set_bit(grown[place as int], shift, (j % 8) as u8);
            if j / 8 == place {
                assert(j == index <==> j % 8 == index % 8);
            }
        }
    }
}

proof fn lemma_same_byte(a: u8, b: u8)
    requires
        (a & (1u8 << 0u8) != 0) == (b & (1u8 << 0u8) != 0),
        (a & (1u8 << 1u8) != 0) == (b & (1u8 << 1u8) != 0),
        (a & (1u8 << 2u8) != 0) == (b & (1u8 << 2u8) != 0),
        (a & (1u8 << 3u8) != 0) == (b & (1u8 << 3u8) != 0),
        (a & (1u8 << 4u8) != 0) == (b & (1u8 << 4u8) != 0),
        (a & (1u8 << 5u8) != 0) == (b & (1u8 << 5u8) != 0),
        (a & (1u8 << 6u8) != 0) == (b & (1u8 << 6u8) != 0),
        (a & (1u8 << 7u8) != 0) == (b & (1u8 << 7u8) != 0),
    ensures
        a == b,
{
    assert(a == b) by (bit_vector)
        requires
            (a & (1u8 << 0u8) != 0) == (b & (1u8 << 0u8) != 0),
            (a & (1u8 << 1u8) != 0) == (b & (1u8 << 1u8) != 0),
            (a & (1u8 << 2u8) != 0) == (b & (1u8 << 2u8) != 0),
            (a & (1u8 << 3u8) != 0) == (b & (1u8 << 3u8) != 0),
            (a & (1u8 << 4u8) != 0) == (b & (1u8 << 4u8) != 0),
            (a & (1u8 << 5u8) != 0) == (b & (1u8 << 5u8) != 0),
            (a & (1u8 << 6u8) != 0) == (b & (1u8 << 6u8) != 0),
            (a & (1u8 << 7u8) != 0) == (b & (1u8 << 7u8) != 0),
    ;
}

/// Bitmaps of one length with the same bits are the same.
proof fn lemma_same_bits(a: Seq<u8>, b: Seq<u8>)
    requires
        a.len() == b.len(),
        forall|j: nat| #[trigger] bit(a, j) == bit(b, j),
    ensures
        a == b,
{
    assert forall|i: int| 0 <= i < a.len() implies a[i] == b[i] by {
        let n = i as nat;
        assert(bit(a, 8 * n) == bit(b, 8 * n));
        assert(bit(a, 8 * n + 1) == bit(b, 8 * n + 1));
        assert(bit(a, 8 * n + 2) == bit(b, 8 * n + 2));
        assert(bit(a, 8 * n + 3) == bit(b, 8 * n + 3));
        assert(bit(a, 8 * n + 4) == bit(b, 8 * n + 4));
        assert(bit(a, 8 * n + 5) == bit(b, 8 * n + 5));
        assert(bit(a, 8 * n + 6) == bit(b, 8 * n + 6));
        assert(bit(a, 8 * n + 7) == bit(b, 8 * n + 7));
        lemma_same_byte(a[i], b[i]);
    }
    assert(a =~= b);
}

/// Marking a chunk that is marked changes nothing.
pub proof fn law_second_mark_changes_nothing(
    before: Seq<u8>,
    once: Seq<u8>,
    twice: Seq<u8>,
    index: usize,
)
    requires
        is_marked(before, once, index),
        is_marked(once, twice, index),
    ensures
        twice == once,
{
    lemma_same_bits(once, twice);
}

/// The order in which two chunks are marked does not matter.
pub proof fn law_marks_commute(
    before: Seq<u8>,
    one: Seq<u8>,
    one_two: Seq<u8>,
    two: Seq<u8>,
    two_one: Seq<u8>,
    first: usize,
    second: usize,
)
    requires
        is_marked(before, one, first),
        is_marked(one, one_two, second),
        is_marked(before, two, second),
        is_marked(two, two_one, first),
    ensures
        one_two == two_one,
{
    assert forall|j: nat| #[trigger] bit(one_two, j) == bit(two_one, j) by {
        assert(bit(one, j) == (j == first || bit(before, j)));
        assert(bit(two, j) == (j == second || bit(before, j)));
    }
    lemma_same_bits(one_two, two_one);
}

/// A bitmap with a bit cleared, where it reaches the bit.
pub open spec fn cleared(bitmap: Seq<u8>, index: nat) -> Seq<u8> {
    let place = (index / 8) as int;
    if place < bitmap.len() {
        bitmap.update(place, bitmap[place] & !(1u8 << ((index % 8) as u8)))
    } else {
        bitmap
    }
}

proof fn lemma_cleared(bitmap: Seq<u8>, index: nat, j: nat)
    ensures
        bit(cleared(bitmap, index), j) == (j != index && bit(bitmap, j)),
{
    let place = (index / 8) as int;
    if place < bitmap.len() {
        lemma_clear_bit(bitmap[place], (index % 8) as u8, (j % 8) as u8);
        if j / 8 == place {
            assert(j == index <==> j % 8 == index % 8);
        }
    }
}

/// Clears a bit, where the bitmap reaches it.
pub fn clear_bit(bitmap: &mut Vec<u8>, index: usize)
    ensures
        final(bitmap)@ == cleared(old(bitmap)@, index as nat),
        forall|j: nat| #[trigger]
            bit(final(bitmap)@, j) == (j != index && bit(old(bitmap)@, j)),
        final(bitmap)@.len() == old(bitmap)@.len(),
{
    let ghost before = bitmap@;
    let place: usize = index / 8;
    if place < bitmap.len() {
        let shift: u8 = (index % 8) as u8;
        let mask: u8 = 1u8 << shift;
        let byte: u8 = bitmap[place] & !mask;
        bitmap.set(place, byte);
    }
    proof {
        assert(bitmap@ =~= cleared(before, index as nat));
        assert forall|j: nat| #[trigger] bit(bitmap@, j) == (j != index && bit(before, j)) by {
            lemma_cleared(before, index as nat, j);
        }
    }
}

/// A bitmap with a bit for each of some chunks, none of them set.
pub fn empty_bitmap(chunk_count: usize) -> (bitmap: Vec<u8>)
    ensures
        bitmap@.len() == (chunk_count + 7) / 8,
        forall|i: int| 0 <= i < bitmap@.len() ==> bitmap@[i] == 0,
        forall|j: nat| !#[trigger] bit(bitmap@, j),
{
    let full: usize = chunk_count / 8;
    let len: usize = if chunk_count % 8 == 0 {
        full
    } else {
        full + 1
    };
    let mut bitmap: Vec<u8> = Vec::new();
    bitmap.resize(len, 0);
    assert forall|j: nat| !#[trigger] bit(bitmap@, j) by {
        lemma_zero_byte((j % 8) as u8);
    }
    bitmap
}

/// Whether no bit is set.
pub fn is_blank(bitmap: &[u8]) -> (blank: bool)
    ensures
        blank == forall|i: int| 0 <= i < bitmap@.len() ==> bitmap@[i] == 0,
{
    let mut i: usize = 0;
    while i < bitmap.len()
        invariant
            i <= bitmap@.len(),
            forall|j: int| 0 <= j < i ==> bitmap@[j] == 0,
        decreases bitmap@.len() - i,
    {
        if bitmap[i] != 0 {
            return false;
        }
        i += 1;
    }
    true
}

/// The bitmap to go on with. What was marked counts only where the partial
/// file is still there in full length; the second result tells whether the
/// marked chunks are to be checked.
pub fn resume_bitmap(bitmap: Vec<u8>, partial_len: Option<u64>, size: u64) -> (resumed: (
    Vec<u8>,
    bool,
))
    ensures
        ({
            let usable = partial_len == Some(size);
            let marked = exists|i: int| 0 <= i < bitmap@.len() && bitmap@[i] != 0;
            &&& resumed.1 == (usable && marked)
            &&& resumed.1 ==> resumed.0@ == bitmap@
            &&& !resumed.1 ==> resumed.0@ == Seq::new(bitmap@.len(), |i: int| 0u8)
        }),
{
    let usable = match partial_len {
        Some(len) => len == size,
        None => false,
    };
    if usable && !is_blank(bitmap.as_slice()) {
        return (bitmap, true);
    }
    let mut blank: Vec<u8> = Vec::new();
    blank.resize(bitmap.len(), 0);
    assert(blank@ =~= Seq::new(bitmap@.len(), |i: int| 0u8));
    (blank, false)
}

// ---------------------------------------------------------------------------
// Checking what is there
// ---------------------------------------------------------------------------

/// The contents of a file that are being hashed.
pub struct ContentHasher {
    hasher: blake3::Hasher,
}

impl ContentHasher {
    pub closed spec fn data(&self) -> Seq<u8> {
        hash::absorbed(self.hasher)
    }

    pub fn new() -> (hasher: ContentHasher)
        ensures
            hasher.data() == Seq::<u8>::empty(),
    {
        ContentHasher { hasher: hash::new_hasher() }
    }

    pub fn add(&mut self, block: &[u8])
        ensures
            final(self).data() == old(self).data() + block@,
    {
        hash::update(&mut self.hasher, block);
    }

    pub fn finish(&self) -> (digest: Vec<u8>)
        ensures
            digest@ == hash::blake3_digest(self.data()),
            digest@.len() == 32,
    {
        hash::finalize(&self.hasher)
    }
}

/// Whether a file has the expected hash; `contents` is `None` where there is
/// no file. An expectation that is no hash is met by no file.
pub fn file_hash_matches(expected: &[u8], contents: Option<&ContentHasher>) -> (ok: bool)
    ensures
        ok == match contents {
            Some(c) => expected@.len() == 32 && expected@ == hash::blake3_digest(c.data()),
            None => false,
        },
{
    if expected.len() != 32 {
        return false;
    }
    match contents {
        Some(contents) => {
            let digest = contents.finish();
            text::same_bytes(digest.as_slice(), expected)
        },
        None => false,
    }
}

/// The marks that are left once the contents of a chunk were read: that of a
/// chunk whose contents do not have its hash is cleared.
pub open spec fn after_check(bitmap: Seq<u8>, chunk: ChunkHashView, data: Seq<u8>) -> Seq<u8> {
    if hash::blake3_digest(data) != chunk.blake3 {
        cleared(bitmap, chunk.index as nat)
    } else {
        bitmap
    }
}

/// Clears the mark of a chunk whose contents do not have its hash.
pub fn check_chunk(bitmap: &mut Vec<u8>, chunk: &ChunkHash, data: &[u8])
    ensures
        final(bitmap)@ == after_check(old(bitmap)@, chunk@, data@),
        final(bitmap)@.len() == old(bitmap)@.len(),
        forall|j: nat| #[trigger]
            bit(final(bitmap)@, j) == (bit(old(bitmap)@, j) && !(j == chunk.index
                && hash::blake3_digest(data@) != chunk@.blake3)),
{
    let digest = hash::hash(data);
    if !text::same_bytes(digest.as_slice(), chunk.blake3.as_slice()) {
        clear_bit(bitmap, chunk.index as usize);
    }
}

/// The contents of a chunk in a file, where the file reaches it.
pub open spec fn chunk_contents(file: Seq<u8>, chunk: ChunkHashView) -> Option<Seq<u8>> {
    if chunk.length == 0 {
        Some(Seq::empty())
    } else if chunk.offset + chunk.length <= file.len() {
        Some(file.subrange(chunk.offset as int, chunk.offset + chunk.length))
    } else {
        None
    }
}

/// Whether the contents of a chunk do not have its hash.
pub open spec fn is_damaged(file: Seq<u8>, chunk: ChunkHashView) -> bool {
    match chunk_contents(file, chunk) {
        Some(data) => hash::blake3_digest(data) != chunk.blake3,
        None => false,
    }
}

/// Whether bit `j` is left after the first `n` chunks were checked: a chunk
/// whose contents do not have its hash clears it.
pub open spec fn bit_after_checks(
    file: Seq<u8>,
    chunks: Seq<ChunkHashView>,
    set: bool,
    j: nat,
    n: nat,
) -> bool
    decreases n,
{
    if n == 0 {
        set
    } else {
        let before = bit_after_checks(file, chunks, set, j, (n - 1) as nat);
        let chunk = chunks[n - 1];
        before && !(chunk.index == j && is_damaged(file, chunk))
    }
}

/// Whether every chunk that is marked when its turn comes can be read.
pub open spec fn checks_readable(
    file: Seq<u8>,
    chunks: Seq<ChunkHashView>,
    bitmap: Seq<u8>,
    n: nat,
) -> bool
    decreases n,
{
    n == 0 || (checks_readable(file, chunks, bitmap, (n - 1) as nat) && (bit_after_checks(
        file,
        chunks,
        bit(bitmap, chunks[n - 1].index as nat),
        chunks[n - 1].index as nat,
        (n - 1) as nat,
    ) ==> chunk_contents(file, chunks[n - 1]) is Some))
}

/// The error for a file that ends inside a chunk.
pub open spec fn short_file() -> ErrorView {
    ErrorView::Io(
        IoErrorView {
            kind: IoErrorKind::UnexpectedEof,
            message: "failed to fill whole buffer"@,
        },
    )
}

proof fn lemma_unreadable_stays(
    file: Seq<u8>,
    chunks: Seq<ChunkHashView>,
    bitmap: Seq<u8>,
    n: nat,
    m: nat,
)
    requires
        n <= m,
        !checks_readable(file, chunks, bitmap, n),
    ensures
        !checks_readable(file, chunks, bitmap, m),
    decreases m,
{
    if n < m {
        lemma_unreadable_stays(file, chunks, bitmap, n, (m - 1) as nat);
    }
}

/// The check of the marked chunks of a partial file, chunk by chunk.
pub struct ChunkCheck {
    pub chunks: Vec<ChunkHash>,
    /// The marks that are left.
    pub bitmap: Vec<u8>,
    /// The chunks before this one are done.
    pub position: usize,
}

/// The model of a [`ChunkCheck`].
#[verifier::ext_equal]
pub struct ChunkCheckView {
    pub chunks: Seq<ChunkHashView>,
    pub bitmap: Seq<u8>,
    pub position: nat,
}

impl View for ChunkCheck {
    type V = ChunkCheckView;

    open spec fn view(&self) -> ChunkCheckView {
        ChunkCheckView {
            chunks: fields::views(self.chunks@),
            bitmap: self.bitmap@,
            position: self.position as nat,
        }
    }
}

/// The first position from `from` on whose chunk is marked, or the number of
/// chunks.
pub open spec fn next_marked(chunks: Seq<ChunkHashView>, bitmap: Seq<u8>, from: nat) -> nat
    decreases chunks.len() - from,
{
    if from >= chunks.len() || bit(bitmap, chunks[from as int].index as nat) {
        from
    } else {
        next_marked(chunks, bitmap, from + 1)
    }
}

/// A check that has come to the next marked chunk.
pub open spec fn check_sought(check: ChunkCheckView) -> ChunkCheckView {
    ChunkCheckView {
        position: next_marked(check.chunks, check.bitmap, check.position),
        ..check
    }
}

/// A check once the contents of the chunk it has come to were read.
pub open spec fn check_taken(check: ChunkCheckView, data: Seq<u8>) -> ChunkCheckView {
    ChunkCheckView {
        bitmap: after_check(check.bitmap, check.chunks[check.position as int], data),
        position: check.position + 1,
        ..check
    }
}

impl ChunkCheck {
    /// No more chunks are done than there are.
    pub open spec fn wf(&self) -> bool {
        self.position <= self.chunks@.len()
    }

    pub fn new(chunks: Vec<ChunkHash>, bitmap: Vec<u8>) -> (check: ChunkCheck)
        ensures
            check.wf(),
            check@ == (ChunkCheckView {
                chunks: fields::views(chunks@),
                bitmap: bitmap@,
                position: 0,
            }),
    {
        ChunkCheck { chunks, bitmap, position: 0 }
    }

    /// Goes to the next marked chunk; the result is its offset and its length,
    /// or nothing where all marked chunks are done.
    pub fn seek(&mut self) -> (place: Option<(u64, u32)>)
        requires
            old(self).wf(),
        ensures
            final(self).wf(),
            final(self)@ == check_sought(old(self)@),
            place == if final(self)@.position < final(self)@.chunks.len() {
                let chunk = final(self)@.chunks[final(self)@.position as int];
                Some((chunk.offset, chunk.length))
            } else {
                None
            },
    {
        let ghost before = self@;
        while self.position < self.chunks.len()
            invariant_except_break
                self.wf(),
                before.chunks == self@.chunks,
                before.bitmap == self@.bitmap,
                check_sought(before) == check_sought(self@),
            ensures
                self.wf(),
                self@ == check_sought(before),
            decreases self.chunks@.len() - self.position,
        {
            let chunk = &self.chunks[self.position];
            assert(self@.chunks[self.position as int] == chunk@);
            if bit_is_set(self.bitmap.as_slice(), chunk.index as usize) {
                break;
            }
            self.position = self.position + 1;
        }
        if self.position < self.chunks.len() {
            let chunk = &self.chunks[self.position];
            assert(self@.chunks[self.position as int] == chunk@);
            Some((chunk.offset, chunk.length))
        } else {
            None
        }
    }

    /// Takes in the contents of the chunk that the check has come to.
    pub fn take(&mut self, data: &[u8])
        requires
            old(self).wf(),
            old(self)@.position < old(self)@.chunks.len(),
        ensures
            final(self).wf(),
            final(self)@ == check_taken(old(self)@, data@),
    {
        let ghost before = self@;
        let place = self.position;
        assert(place < self.chunks.len());
        let chunk = &self.chunks[place];
        assert(before.chunks[place as int] == chunk@);
        check_chunk(&mut self.bitmap, chunk, data);
        self.position = place + 1;
    }

    /// The marks that are left.
    pub fn finish(self) -> (bitmap: Vec<u8>)
        ensures
            bitmap@ == self@.bitmap,
    {
        self.bitmap
    }
}

/// The marks that are left once the first `n` chunks of a file were checked.
pub open spec fn checked_bitmap(
    file: Seq<u8>,
    chunks: Seq<ChunkHashView>,
    bitmap: Seq<u8>,
    n: nat,
) -> Seq<u8>
    decreases n,
{
    if n == 0 {
        bitmap
    } else {
        let before = checked_bitmap(file, chunks, bitmap, (n - 1) as nat);
        let chunk = chunks[n - 1];
        match chunk_contents(file, chunk) {
            Some(data) => if bit(before, chunk.index as nat) {
                after_check(before, chunk, data)
            } else {
                before
            },
            None => before,
        }
    }
}

proof fn lemma_checked_bits(
    file: Seq<u8>,
    chunks: Seq<ChunkHashView>,
    bitmap: Seq<u8>,
    n: nat,
    j: nat,
)
    ensures
        bit(checked_bitmap(file, chunks, bitmap, n), j) == bit_after_checks(
            file,
            chunks,
            bit(bitmap, j),
            j,
            n,
        ),
        checked_bitmap(file, chunks, bitmap, n).len() == bitmap.len(),
    decreases n,
{
    if n > 0 {
        lemma_checked_bits(file, chunks, bitmap, (n - 1) as nat, j);
        let before = checked_bitmap(file, chunks, bitmap, (n - 1) as nat);
        lemma_cleared(before, chunks[n - 1].index as nat, j);
    }
}

/// Going past chunks that are not marked changes nothing.
proof fn lemma_check_sought(
    file: Seq<u8>,
    chunks: Seq<ChunkHashView>,
    bitmap: Seq<u8>,
    from: nat,
)
    requires
        from <= chunks.len(),
        checks_readable(file, chunks, bitmap, from),
    ensures
        ({
            let before = checked_bitmap(file, chunks, bitmap, from);
            let to = next_marked(chunks, before, from);
            &&& from <= to <= chunks.len()
            &&& checked_bitmap(file, chunks, bitmap, to) == before
            &&& checks_readable(file, chunks, bitmap, to)
            &&& to < chunks.len() ==> bit(before, chunks[to as int].index as nat)
        }),
    decreases chunks.len() - from,
{
    let before = checked_bitmap(file, chunks, bitmap, from);
    if from < chunks.len() && !bit(before, chunks[from as int].index as nat) {
        lemma_checked_bits(file, chunks, bitmap, from, chunks[from as int].index as nat);
        assert(checked_bitmap(file, chunks, bitmap, from + 1) == before);
        lemma_check_sought(file, chunks, bitmap, from + 1);
    }
}

/// The marks that are left when a check goes through a file: each chunk that
/// it comes to is read from the file.
pub open spec fn check_run(check: ChunkCheckView, file: Seq<u8>) -> Seq<u8>
    decreases check.chunks.len() - check.position,
{
    let sought = check_sought(check);
    if check.position >= check.chunks.len() || sought.position < check.position || sought.position
        >= check.chunks.len() {
        check.bitmap
    } else {
        match chunk_contents(file, check.chunks[sought.position as int]) {
            Some(data) => check_run(check_taken(sought, data), file),
            None => check.bitmap,
        }
    }
}

proof fn lemma_check_run(
    file: Seq<u8>,
    chunks: Seq<ChunkHashView>,
    bitmap: Seq<u8>,
    check: ChunkCheckView,
)
    requires
        check.chunks == chunks,
        check.position <= chunks.len(),
        check.bitmap == checked_bitmap(file, chunks, bitmap, check.position),
        checks_readable(file, chunks, bitmap, chunks.len()),
    ensures
        check_run(check, file) == checked_bitmap(file, chunks, bitmap, chunks.len()),
    decreases chunks.len() - check.position,
{
    lemma_readable_before(file, chunks, bitmap, check.position, chunks.len());
    lemma_check_sought(file, chunks, bitmap, check.position);
    let sought = check_sought(check);
    if check.position < chunks.len() && sought.position < chunks.len() {
        let k = sought.position;
        lemma_readable_before(file, chunks, bitmap, k + 1, chunks.len());
        lemma_checked_bits(file, chunks, bitmap, k, chunks[k as int].index as nat);
        if let Some(data) = chunk_contents(file, chunks[k as int]) {
            lemma_check_run(file, chunks, bitmap, check_taken(sought, data));
        }
    }
}

proof fn lemma_readable_before(
    file: Seq<u8>,
    chunks: Seq<ChunkHashView>,
    bitmap: Seq<u8>,
    n: nat,
    m: nat,
)
    requires
        n <= m,
        checks_readable(file, chunks, bitmap, m),
    ensures
        checks_readable(file, chunks, bitmap, n),
{
    if !checks_readable(file, chunks, bitmap, n) {
        lemma_unreadable_stays(file, chunks, bitmap, n, m);
    }
}

/// The check, chunk by chunk, of a partial file leaves just the marks of
/// chunks that are intact in it.
pub proof fn law_check_goes_through_the_file(
    file: Seq<u8>,
    chunks: Seq<ChunkHashView>,
    bitmap: Seq<u8>,
    j: nat,
)
    requires
        checks_readable(file, chunks, bitmap, chunks.len()),
    ensures
        bit(check_run(ChunkCheckView { chunks, bitmap, position: 0 }, file), j)
            == bit_after_checks(file, chunks, bit(bitmap, j), j, chunks.len()),
{
    lemma_check_run(file, chunks, bitmap, ChunkCheckView { chunks, bitmap, position: 0 });
    lemma_checked_bits(file, chunks, bitmap, chunks.len(), j);
}

/// Checks the marked chunks of a partial file and clears the marks of those
/// that are damaged.
pub fn validate_completed_chunks(file: &[u8], chunks: &Vec<ChunkHash>, bitmap: Vec<u8>) -> (checked:
    Result<Vec<u8>, LanFlowError>)
    ensures
        checks_readable(file@, fields::views(chunks@), bitmap@, chunks@.len()) ==> (checked
            matches Ok(result) && result@.len() == bitmap@.len() && forall|j: nat| #[trigger]
            bit(result@, j) == bit_after_checks(
                file@,
                fields::views(chunks@),
                bit(bitmap@, j),
                j,
                chunks@.len(),
            )),
        !checks_readable(file@, fields::views(chunks@), bitmap@, chunks@.len()) ==> (checked
            matches Err(e) && e@ == short_file()),
{
    let ghost all = fields::views(chunks@);
    let ghost start = bitmap@;
    let total: usize = file.len();
    let mut check = ChunkCheck::new(copy_chunks(chunks), bitmap);
    loop
        invariant
            total == file@.len(),
            start == bitmap@,
            all == fields::views(chunks@),
            check.wf(),
            check@.chunks == all,
            check@.bitmap == checked_bitmap(file@, all, start, check@.position),
            checks_readable(file@, all, start, check@.position),
        decreases all.len() - check@.position,
    {
        proof {
            lemma_check_sought(file@, all, start, check@.position);
        }
        match check.seek() {
            Some((offset, length)) => {
                let ghost k = check@.position;
                let ghost chunk = all[k as int];
                proof {
                    lemma_checked_bits(file@, all, start, k, chunk.index as nat);
                }
                let from: usize;
                let to: usize;
                if length == 0 {
                    from = 0;
                    to = 0;
                } else if offset <= total as u64 && length as u64 <= total as u64 - offset {
                    from = offset as usize;
                    to = from + length as usize;
                } else {
                    proof {
                        assert(!checks_readable(file@, all, start, k + 1));
                        lemma_unreadable_stays(file@, all, start, k + 1, all.len());
                    }
                    return Err(
                        LanFlowError::Io(
                            IoError {
                                kind: IoErrorKind::UnexpectedEof,
                                message: "failed to fill whole buffer".to_owned(),
                            },
                        ),
                    );
                }
                let data = slice_subrange(file, from, to);
                assert(data@ =~= chunk_contents(file@, chunk)->0);
                assert(chunk_contents(file@, chunk) == Some(data@));
                check.take(data);
            },
            None => {
                proof {
                    assert forall|j: nat| #[trigger] bit(check@.bitmap, j) == bit_after_checks(
                        file@,
                        all,
                        bit(start, j),
                        j,
                        all.len(),
                    ) by {
                        lemma_checked_bits(file@, all, start, all.len(), j);
                    }
                    lemma_checked_bits(file@, all, start, all.len(), 0);
                }
                return Ok(check.finish());
            },
        }
    }
}

/// Checking never marks a chunk, and what was marked and is left has the hash
/// it should have.
pub proof fn law_checked_chunks_are_intact(
    file: Seq<u8>,
    chunks: Seq<ChunkHashView>,
    set: bool,
    k: int,
)
    requires
        0 <= k < chunks.len(),
        bit_after_checks(file, chunks, set, chunks[k].index as nat, chunks.len()),
    ensures
        set,
        chunk_contents(file, chunks[k]) matches Some(data) ==> hash::blake3_digest(data)
            == chunks[k].blake3,
{
    lemma_checked_prefix(file, chunks, set, chunks[k].index as nat, k, chunks.len());
}

proof fn lemma_checked_prefix(
    file: Seq<u8>,
    chunks: Seq<ChunkHashView>,
    set: bool,
    j: nat,
    k: int,
    n: nat,
)
    requires
        0 <= k < n <= chunks.len(),
        chunks[k].index == j,
        bit_after_checks(file, chunks, set, j, n),
    ensures
        set,
        chunk_contents(file, chunks[k]) matches Some(data) ==> hash::blake3_digest(data)
            == chunks[k].blake3,
    decreases n,
{
    if k < n - 1 {
        lemma_checked_prefix(file, chunks, set, j, k, (n - 1) as nat);
    } else {
        lemma_set_before(file, chunks, set, j, (n - 1) as nat);
    }
}

proof fn lemma_set_before(file: Seq<u8>, chunks: Seq<ChunkHashView>, set: bool, j: nat, n: nat)
    requires
        bit_after_checks(file, chunks, set, j, n),
    ensures
        set,
    decreases n,
{
    if n > 0 {
        lemma_set_before(file, chunks, set, j, (n - 1) as nat);
    }
}

// ---------------------------------------------------------------------------
// The sizes of a download
// ---------------------------------------------------------------------------

/// The size of some files together.
pub open spec fn total_size(files: Seq<ManifestFileView>) -> nat
    decreases files.len(),
{
    if files.len() == 0 {
        0
    } else {
        total_size(files.drop_last()) + files.last().size as nat
    }
}

/// How many of some files are not directories.
pub open spec fn plain_files(files: Seq<ManifestFileView>) -> nat
    decreases files.len(),
{
    if files.len() == 0 {
        0
    } else {
        plain_files(files.drop_last()) + if files.last().is_dir {
            0nat
        } else {
            1nat
        }
    }
}

proof fn lemma_total_grows(files: Seq<ManifestFileView>, n: int)
    requires
        0 <= n <= files.len(),
    ensures
        total_size(files.take(n)) <= total_size(files),
        plain_files(files.take(n)) <= n,
    decreases files.len() - n, n,
{
    if n < files.len() {
        lemma_total_grows(files, n + 1);
        assert(files.take(n + 1).drop_last() =~= files.take(n));
    } else {
        assert(files.take(n) =~= files);
    }
    lemma_plain_bound(files.take(n));
}

proof fn lemma_plain_bound(files: Seq<ManifestFileView>)
    ensures
        plain_files(files) <= files.len(),
    decreases files.len(),
{
    if files.len() > 0 {
        lemma_plain_bound(files.drop_last());
    }
}

/// The size of a snapshot is the sum of the sizes of its files, and its number
/// of files counts what is no directory.
pub proof fn law_totals_add_up(files: Seq<ManifestFileView>, file: ManifestFileView)
    ensures
        total_size(Seq::empty()) == 0,
        plain_files(Seq::empty()) == 0,
        total_size(files.push(file)) == total_size(files) + file.size,
        file.is_dir ==> plain_files(files.push(file)) == plain_files(files),
        !file.is_dir ==> plain_files(files.push(file)) == plain_files(files) + 1,
{
    assert(files.push(file).drop_last() =~= files);
}

/// The size of a snapshot's files together, and how many of them are not
/// directories; `None` where the size is beyond 64 bits.
pub fn manifest_totals(files: &Vec<ManifestFile>) -> (totals: Option<(u64, u64)>)
    ensures
        total_size(fields::views(files@)) <= u64::MAX ==> totals == Some(
            (
                total_size(fields::views(files@)) as u64,
                plain_files(fields::views(files@)) as u64,
            ),
        ),
        total_size(fields::views(files@)) > u64::MAX ==> totals is None,
{
    let ghost all = fields::views(files@);
    let mut bytes: u64 = 0;
    let mut count: u64 = 0;
    let mut i: usize = 0;
    assert(all.take(0) =~= Seq::empty());
    while i < files.len()
        invariant
            i <= files@.len(),
            all == fields::views(files@),
            bytes == total_size(all.take(i as int)),
            count == plain_files(all.take(i as int)),
            count <= i,
        decreases files@.len() - i,
    {
        let file = &files[i];
        proof {
            assert(all[i as int] == file@);
            assert(all.take(i + 1).drop_last() =~= all.take(i as int));
            assert(all.take(i + 1).last() == file@);
            lemma_total_grows(all, i + 1);
        }
        if file.size > u64::MAX - bytes {
            return None;
        }
        bytes = bytes + file.size;
        if !file.is_dir {
            count = count + 1;
        }
        i += 1;
    }
    assert(all.take(i as int) =~= all);
    Some((bytes, count))
}

/// The text that is stored for a snapshot.
pub fn manifest_text(manifest: &SnapshotManifest) -> (stored: String)
    ensures
        stored@ == crypto::base64_text(message::encoded(manifest@)),
        crypto::base64_bytes(stored@) == Some(message::encoded(manifest@)),
{
    let data = message::encode(manifest);
    crypto::base64_encode(data.as_slice())
}

/// How much is done at once.
#[derive(Clone, Copy, Debug, PartialEq, Eq, Structural)]
pub struct TransferLimits {
    /// How many connections carry data.
    pub connections: usize,
    /// How many chunks travel at once.
    pub streams: usize,
    /// How many files are worked on at once.
    pub files: usize,
}

/// A number kept within bounds.
pub open spec fn clamped(n: int, low: int, high: int) -> int {
    if n < low {
        low
    } else if n > high {
        high
    } else {
        n
    }
}

fn clamp(n: usize, low: usize, high: usize) -> (result: usize)
    requires
        low <= high,
    ensures
        result == clamped(n as int, low as int, high as int),
{
    if n < low {
        low
    } else if n > high {
        high
    } else {
        n
    }
}

/// How much is done at once under some settings.
pub open spec fn limits_for(settings: PerformanceSettings) -> TransferLimits {
    let connections = clamped(settings.data_connections as int, 1, 8);
    let streams = connections * clamped(settings.streams_per_connection as int, 1, 16);
    TransferLimits {
        connections: connections as usize,
        streams: streams as usize,
        files: clamped(2 * streams, 4, 64) as usize,
    }
}

/// There is at least one connection and at most eight, each with at least one
/// chunk and at most sixteen on the way; settings within these bounds are used
/// as they are. Twice as many files as chunks are worked on, between four and
/// 64.
pub proof fn law_limits_follow_the_settings(settings: PerformanceSettings)
    ensures
        ({
            let limits = limits_for(settings);
            &&& 1 <= limits.connections <= 8
            &&& limits.connections <= limits.streams <= 16 * limits.connections
            &&& 4 <= limits.files <= 64
            &&& 1 <= settings.data_connections <= 8 ==> limits.connections
                == settings.data_connections
            &&& 1 <= settings.data_connections <= 8 && 1 <= settings.streams_per_connection <= 16
                ==> limits.streams == settings.data_connections * settings.streams_per_connection
            &&& 2 <= limits.streams <= 32 ==> limits.files == 2 * limits.streams
        }),
{
    let connections = clamped(settings.data_connections as int, 1, 8);
    let each = clamped(settings.streams_per_connection as int, 1, 16);
    assert(connections <= connections * each <= 16 * connections) by (nonlinear_arith)
        requires
            1 <= connections,
            1 <= each <= 16,
    ;
}

/// How much is done at once under some settings.
pub fn transfer_limits(settings: &PerformanceSettings) -> (limits: TransferLimits)
    ensures
        limits.connections == clamped(settings.data_connections as int, 1, 8),
        limits.streams == clamped(settings.data_connections as int, 1, 8) * clamped(
            settings.streams_per_connection as int,
            1,
            16,
        ),
        limits.files == clamped(2 * limits.streams, 4, 64),
        limits == limits_for(*settings),
{
    let connections: usize = clamp(settings.data_connections as usize, 1, 8);
    let per_connection: usize = clamp(settings.streams_per_connection as usize, 1, 16);
    assert(connections * per_connection <= 128) by (nonlinear_arith)
        requires
            connections <= 8,
            per_connection <= 16,
    ;
    let streams: usize = connections * per_connection;
    let files: usize = clamp(streams * 2, 4, 64);
    TransferLimits { connections, streams, files }
}

/// The connection that takes the next chunk: one after the other.
pub fn pick_connection(cursor: usize, count: usize) -> (index: usize)
    requires
        count > 0,
    ensures
        index == cursor % count,
        index < count,
{
    cursor % count
}

// ---------------------------------------------------------------------------
// Which tasks run
// ---------------------------------------------------------------------------

/// The downloads that run.
pub struct ActiveTasks {
    pub running: StringHashMap<bool>,
}

impl View for ActiveTasks {
    type V = Set<Seq<char>>;

    open spec fn view(&self) -> Set<Seq<char>> {
        self.running@.dom()
    }
}

impl ActiveTasks {
    pub fn new() -> (tasks: ActiveTasks)
        ensures
            tasks@ == Set::<Seq<char>>::empty(),
    {
        let tasks = ActiveTasks { running: StringHashMap::new() };
        assert(tasks@ =~= Set::empty());
        tasks
    }

    /// Refuses a download that runs already.
    pub fn check_idle(&self, task_id: &str) -> (checked: Result<(), LanFlowError>)
        ensures
            self@.contains(task_id@) ==> (checked matches Err(e) && e@ == ErrorView::InvalidInput(
                "任务已在运行"@,
            )),
            !self@.contains(task_id@) ==> checked is Ok,
    {
        if self.running.contains_key(task_id) {
            return Err(LanFlowError::InvalidInput("任务已在运行".to_owned()));
        }
        Ok(())
    }

    /// Notes that a download runs.
    pub fn insert(&mut self, task_id: &str)
        ensures
            final(self)@ == old(self)@.insert(task_id@),
    {
        let ghost before = self@;
        self.running.insert(task_id.to_owned(), true);
        assert(self@ =~= before.insert(task_id@));
    }

    /// Notes that a download no longer runs; the result tells whether it did.
    pub fn remove(&mut self, task_id: &str) -> (ran: bool)
        ensures
            ran == old(self)@.contains(task_id@),
            final(self)@ == old(self)@.remove(task_id@),
    {
        let ghost before = self@;
        let ran = self.running.contains_key(task_id);
        self.running.remove(task_id);
        assert(self@ =~= before.remove(task_id@));
        ran
    }
}

/// Where the unfinished files of a download lie.
pub open spec fn partial_directory(destination: Seq<char>, task_id: Seq<char>) -> Seq<char> {
    paths::path_push(paths::path_push(destination, ".lanflow-partials"@), task_id)
}

/// Where the unfinished files of a download lie.
pub fn partial_root(destination: &str, task_id: &str) -> (path: String)
    ensures
        path@ == partial_directory(destination@, task_id@),
{
    let partials = paths::push_name(destination, ".lanflow-partials");
    paths::push_name(partials.as_str(), task_id)
}

/// Where an unfinished file lies.
pub fn partial_path(partial_root: &str, file_id: &str) -> (path: String)
    ensures
        path@ == paths::path_push(partial_root@, file_id@ + ".part"@),
{
    let name = text::joined(file_id, ".part");
    paths::push_name(partial_root, name.as_str())
}

// ---------------------------------------------------------------------------
// Downloading a file
// ---------------------------------------------------------------------------

/// What is done about a file, given what is in its place.
#[derive(Clone, Copy, Debug, PartialEq, Eq, Structural)]
pub enum TargetChoice {
    /// The file is there already.
    Present,
    /// Another file is there and stays.
    Skip,
    /// Another file is there and stays; this one gets another name.
    KeepBoth,
    /// The file is downloaded to its place.
    Write,
}

/// What is done about a file. `same` tells whether the file in its place has
/// its hash.
pub fn choose_target(exists: bool, same: bool, policy: ConflictPolicy) -> (choice: TargetChoice)
    ensures
        choice == if exists && same {
            TargetChoice::Present
        } else if exists && policy == ConflictPolicy::Skip {
            TargetChoice::Skip
        } else if exists && policy == ConflictPolicy::KeepBoth {
            TargetChoice::KeepBoth
        } else {
            TargetChoice::Write
        },
{
    if !exists {
        return TargetChoice::Write;
    }
    if same {
        return TargetChoice::Present;
    }
    match policy {
        ConflictPolicy::Skip => TargetChoice::Skip,
        ConflictPolicy::KeepBoth => TargetChoice::KeepBoth,
        ConflictPolicy::Overwrite => TargetChoice::Write,
    }
}

/// Whether the file in the way is removed before the new one takes its place.
pub fn removes_old(exists: bool, policy: ConflictPolicy) -> (removes: bool)
    ensures
        removes == (exists && policy == ConflictPolicy::Overwrite),
{
    exists && matches!(policy, ConflictPolicy::Overwrite)
}

/// The chunks among the first `n` that are not marked.
pub open spec fn missing_positions(chunks: Seq<ChunkHashView>, bitmap: Seq<u8>, n: nat) -> Seq<int>
    decreases n,
{
    if n == 0 {
        Seq::empty()
    } else {
        let before = missing_positions(chunks, bitmap, (n - 1) as nat);
        if bit(bitmap, chunks[n - 1].index as nat) {
            before
        } else {
            before.push(n - 1)
        }
    }
}

/// The bytes of the chunks among the first `n` that are marked.
pub open spec fn marked_bytes(chunks: Seq<ChunkHashView>, bitmap: Seq<u8>, n: nat) -> nat
    decreases n,
{
    if n == 0 {
        0
    } else {
        marked_bytes(chunks, bitmap, (n - 1) as nat) + if bit(
            bitmap,
            chunks[n - 1].index as nat,
        ) {
            chunks[n - 1].length as nat
        } else {
            0
        }
    }
}

pub open spec fn positions(list: Seq<usize>) -> Seq<int> {
    list.map_values(|n: usize| n as int)
}

/// The bytes of the chunks that are marked, as a counter of 64 bits holds them.
pub open spec fn held_bytes(chunks: Seq<ChunkHashView>, bitmap: Seq<u8>) -> u64 {
    (marked_bytes(chunks, bitmap, chunks.len()) % 0x1_0000_0000_0000_0000) as u64
}

/// The positions of the chunks that are still to be fetched, and the bytes of
/// those that are there.
pub fn missing_chunks(chunks: &Vec<ChunkHash>, bitmap: &[u8]) -> (missing: (Vec<usize>, u64))
    ensures
        positions(missing.0@) == missing_positions(
            fields::views(chunks@),
            bitmap@,
            chunks@.len(),
        ),
        missing.1 == held_bytes(fields::views(chunks@), bitmap@),
{
    let ghost all = fields::views(chunks@);
    let mut list: Vec<usize> = Vec::new();
    let mut done: u64 = 0;
    let mut i: usize = 0;
    assert(positions(list@) =~= Seq::empty());
    while i < chunks.len()
        invariant
            i <= chunks@.len(),
            all == fields::views(chunks@),
            positions(list@) == missing_positions(all, bitmap@, i as nat),
            done == marked_bytes(all, bitmap@, i as nat) % 0x1_0000_0000_0000_0000,
        decreases chunks@.len() - i,
    {
        let chunk = &chunks[i];
        assert(all[i as int] == chunk@);
        if bit_is_set(bitmap, chunk.index as usize) {
            done = done.wrapping_add(chunk.length as u64);
        } else {
            let ghost before = list@;
            list.push(i);
            assert(positions(list@) =~= positions(before).push(i as int));
        }
        i += 1;
    }
    (list, done)
}

proof fn lemma_missing(chunks: Seq<ChunkHashView>, bitmap: Seq<u8>, n: nat, k: int)
    requires
        n <= chunks.len(),
    ensures
        missing_positions(chunks, bitmap, n).contains(k) <==> 0 <= k < n && !bit(
            bitmap,
            chunks[k].index as nat,
        ),
    decreases n,
{
    if n > 0 {
        lemma_missing(chunks, bitmap, (n - 1) as nat, k);
        let before = missing_positions(chunks, bitmap, (n - 1) as nat);
        let after = missing_positions(chunks, bitmap, n);
        if !bit(bitmap, chunks[n - 1].index as nat) {
            if before.contains(k) {
                let i = before.index_of(k);
                assert(after[i] == k);
            }
            if k == n - 1 {
                assert(after[before.len() as int] == k);
            }
            if after.contains(k) && k != n - 1 {
                let i = after.index_of(k);
                assert(before[i] == k);
            }
        }
    }
}

/// Exactly the chunks that are not marked are fetched.
pub proof fn law_unmarked_chunks_are_fetched(chunks: Seq<ChunkHashView>, bitmap: Seq<u8>, k: int)
    requires
        0 <= k < chunks.len(),
    ensures
        missing_positions(chunks, bitmap, chunks.len()).contains(k) <==> !bit(
            bitmap,
            chunks[k].index as nat,
        ),
{
    lemma_missing(chunks, bitmap, chunks.len(), k);
}

/// The chunks that are fetched are all in the list, and in its order.
pub proof fn lemma_missing_in_order(chunks: Seq<ChunkHashView>, bitmap: Seq<u8>, n: nat)
    ensures
        ({
            let list = missing_positions(chunks, bitmap, n);
            &&& forall|i: int| 0 <= i < list.len() ==> 0 <= #[trigger] list[i] < n
            &&& forall|i: int, j: int| 0 <= i < j < list.len() ==> list[i] < list[j]
        }),
    decreases n,
{
    if n > 0 {
        lemma_missing_in_order(chunks, bitmap, (n - 1) as nat);
        let before = missing_positions(chunks, bitmap, (n - 1) as nat);
        let list = missing_positions(chunks, bitmap, n);
        assert forall|i: int| 0 <= i < list.len() implies 0 <= #[trigger] list[i] < n by {
            if i < before.len() {
                assert(list[i] == before[i]);
            }
        }
        assert forall|i: int, j: int| 0 <= i < j < list.len() implies list[i] < list[j] by {
            assert(list[i] == before[i]);
            if j < before.len() {
                assert(list[j] == before[j]);
            }
        }
    }
}

/// The bytes of the chunks at some positions.
pub open spec fn lengths_at(chunks: Seq<ChunkHashView>, places: Seq<int>) -> nat
    decreases places.len(),
{
    if places.len() == 0 {
        0
    } else {
        lengths_at(chunks, places.drop_last()) + chunks[places.last()].length as nat
    }
}

proof fn lemma_bytes_add_up(chunks: Seq<ChunkHashView>, bitmap: Seq<u8>, n: nat)
    requires
        n <= chunks.len(),
    ensures
        marked_bytes(chunks, bitmap, n) + lengths_at(
            chunks,
            missing_positions(chunks, bitmap, n),
        ) == snapshot::total_length(chunks.take(n as int)),
    decreases n,
{
    if n > 0 {
        lemma_bytes_add_up(chunks, bitmap, (n - 1) as nat);
        assert(chunks.take(n as int).drop_last() =~= chunks.take(n - 1));
        assert(chunks.take(n as int).last() == chunks[n - 1]);
        let before = missing_positions(chunks, bitmap, (n - 1) as nat);
        assert(before.push(n - 1).drop_last() =~= before);
    }
}

/// The bytes that count as done for a file once all its missing chunks came
/// in: those of the chunks that were there, and those that were fetched.
pub open spec fn bytes_done(file: ManifestFileView, bitmap: Seq<u8>) -> nat {
    let n = file.chunks.len();
    marked_bytes(file.chunks, bitmap, n) + lengths_at(
        file.chunks,
        missing_positions(file.chunks, bitmap, n),
    )
}

/// What was there of a file and what is fetched of it are together its size,
/// whichever chunks were marked.
pub proof fn law_file_bytes_add_up(file: ManifestFileView, bitmap: Seq<u8>)
    requires
        snapshot::tiles(file.chunks, file.size as nat),
    ensures
        bytes_done(file, bitmap) == file.size,
{
    let n = file.chunks.len();
    lemma_bytes_add_up(file.chunks, bitmap, n);
    assert(file.chunks.take(n as int) =~= file.chunks);
}

/// The bytes that count as done for files, each with its bitmap.
pub open spec fn all_bytes_done(files: Seq<ManifestFileView>, bitmaps: Seq<Seq<u8>>) -> nat
    decreases files.len(),
{
    if files.len() == 0 {
        0
    } else {
        all_bytes_done(files.drop_last(), bitmaps) + bytes_done(
            files.last(),
            bitmaps[files.len() - 1],
        )
    }
}

/// The bytes that count as done when all files of a download came in are the
/// size of its snapshot.
pub proof fn law_task_bytes_add_up(files: Seq<ManifestFileView>, bitmaps: Seq<Seq<u8>>)
    requires
        forall|i: int|
            0 <= i < files.len() ==> snapshot::tiles(
                (#[trigger] files[i]).chunks,
                files[i].size as nat,
            ),
    ensures
        all_bytes_done(files, bitmaps) == total_size(files),
    decreases files.len(),
{
    if files.len() > 0 {
        let last = files[files.len() - 1];
        assert(snapshot::tiles(last.chunks, last.size as nat));
        assert forall|i: int| 0 <= i < files.drop_last().len() implies snapshot::tiles(
            (#[trigger] files.drop_last()[i]).chunks,
            files.drop_last()[i].size as nat,
        ) by {
            assert(files.drop_last()[i] == files[i]);
        }
        law_task_bytes_add_up(files.drop_last(), bitmaps);
        law_file_bytes_add_up(files.last(), bitmaps[files.len() - 1]);
    }
}

proof fn lemma_single_check(
    file: Seq<u8>,
    chunks: Seq<ChunkHashView>,
    set: bool,
    k: int,
    n: nat,
)
    requires
        0 <= k < chunks.len(),
        n <= chunks.len(),
        forall|i: int, j: int|
            0 <= i < j < chunks.len() ==> (#[trigger] chunks[i]).index != (
            #[trigger] chunks[j]).index,
    ensures
        bit_after_checks(file, chunks, set, chunks[k].index as nat, n) == (set && (n <= k
            || !is_damaged(file, chunks[k]))),
    decreases n,
{
    if n > 0 {
        lemma_single_check(file, chunks, set, k, (n - 1) as nat);
        if n - 1 != k {
            assert(chunks[n - 1].index != chunks[k].index);
        }
    }
}

/// A chunk whose contents still have its hash keeps its mark when the partial
/// file is checked, and one whose contents do not loses it.
pub proof fn law_intact_chunks_keep_their_mark(
    file: Seq<u8>,
    chunks: Seq<ChunkHashView>,
    set: bool,
    k: int,
)
    requires
        0 <= k < chunks.len(),
        forall|i: int, j: int|
            0 <= i < j < chunks.len() ==> (#[trigger] chunks[i]).index != (
            #[trigger] chunks[j]).index,
        chunks[k].offset + chunks[k].length <= file.len(),
    ensures
        bit_after_checks(file, chunks, set, chunks[k].index as nat, chunks.len()) <==> set
            && hash::blake3_digest(
            file.subrange(chunks[k].offset as int, chunks[k].offset + chunks[k].length),
        ) == chunks[k].blake3,
{
    lemma_single_check(file, chunks, set, k, chunks.len());
    assert(chunk_contents(file, chunks[k]) == Some(
        file.subrange(chunks[k].offset as int, chunks[k].offset + chunks[k].length),
    )) by {
        if chunks[k].length == 0 {
            assert(file.subrange(
                chunks[k].offset as int,
                chunks[k].offset + chunks[k].length,
            ) =~= Seq::empty());
        }
    }
}

/// When a download goes on, exactly those chunks are fetched that were not
/// marked before or whose contents are damaged. `checked` is the bitmap after
/// the check.
pub proof fn law_resume_fetches_only_what_is_missing(
    file: Seq<u8>,
    chunks: Seq<ChunkHashView>,
    bitmap: Seq<u8>,
    checked: Seq<u8>,
    k: int,
)
    requires
        0 <= k < chunks.len(),
        forall|i: int, j: int|
            0 <= i < j < chunks.len() ==> (#[trigger] chunks[i]).index != (
            #[trigger] chunks[j]).index,
        forall|j: nat| #[trigger]
            bit(checked, j) == bit_after_checks(file, chunks, bit(bitmap, j), j, chunks.len()),
    ensures
        missing_positions(chunks, checked, chunks.len()).contains(k) <==> !bit(
            bitmap,
            chunks[k].index as nat,
        ) || is_damaged(file, chunks[k]),
{
    law_unmarked_chunks_are_fetched(chunks, checked, k);
    lemma_single_check(
        file,
        chunks,
        bit(bitmap, chunks[k].index as nat),
        k,
        chunks.len(),
    );
}

/// How long to wait after each try, in milliseconds: twice as long each time.
pub open spec fn retry_delay(tries: nat) -> nat
    decreases tries,
{
    if tries == 0 {
        250
    } else {
        2 * retry_delay((tries - 1) as nat)
    }
}

/// The first wait is a quarter of a second, and each one after it twice as long
/// as the one before.
pub proof fn law_waits_double(tries: nat)
    ensures
        retry_delay(0) == 250,
        retry_delay(tries + 1) == 2 * retry_delay(tries),
{
}

/// How often a chunk is tried.
pub const CHUNK_ATTEMPTS: u32 = 3;

/// The tries to fetch a chunk so far.
pub struct ChunkRetry {
    pub tries: u32,
    pub last_error: Option<LanFlowError>,
}

/// The model of a [`ChunkRetry`].
#[verifier::ext_equal]
pub struct ChunkRetryView {
    pub tries: u32,
    pub last_error: Option<ErrorView>,
}

impl View for ChunkRetry {
    type V = ChunkRetryView;

    open spec fn view(&self) -> ChunkRetryView {
        ChunkRetryView {
            tries: self.tries,
            last_error: match self.last_error {
                Some(error) => Some(error@),
                None => None,
            },
        }
    }
}

/// Whether a chunk may be tried once more.
pub open spec fn may_be_tried(retry: ChunkRetryView) -> bool {
    retry.tries < CHUNK_ATTEMPTS
}

/// What the tries become when one failed, and how long to wait then; nothing
/// where the download was cancelled.
pub open spec fn try_failed(retry: ChunkRetryView, error: ErrorView) -> (
    ChunkRetryView,
    Option<nat>,
) {
    if error is Cancelled {
        (retry, None)
    } else {
        (
            ChunkRetryView { tries: (retry.tries + 1) as u32, last_error: Some(error) },
            Some(retry_delay(retry.tries as nat)),
        )
    }
}

/// The error of a chunk that is given up.
pub open spec fn given_up_with(retry: ChunkRetryView) -> ErrorView {
    match retry.last_error {
        Some(error) => error,
        None => ErrorView::Protocol("分片重试失败"@),
    }
}

/// A chunk is tried three times, and is given up with the error of the last
/// try. Between the tries there is a wait, which doubles; a download that was
/// cancelled does not wait and tries no more.
pub proof fn law_chunks_are_tried_three_times(a: ErrorView, b: ErrorView, c: ErrorView)
    requires
        !(a is Cancelled),
        !(b is Cancelled),
        !(c is Cancelled),
    ensures
        ({
            let start = ChunkRetryView { tries: 0, last_error: None };
            let (once, first) = try_failed(start, a);
            let (twice, second) = try_failed(once, b);
            let (thrice, third) = try_failed(twice, c);
            &&& may_be_tried(start) && may_be_tried(once) && may_be_tried(twice)
            &&& !may_be_tried(thrice)
            &&& first == Some(250nat) && second == Some(500nat) && third == Some(1000nat)
            &&& given_up_with(thrice) == c
            &&& try_failed(once, ErrorView::Cancelled).1 is None
        }),
{
    reveal_with_fuel(retry_delay, 4);
}

/// What follows a failed try to fetch a chunk.
pub enum RetryStep {
    /// Wait so many milliseconds, and go on with a new connection.
    Wait(u64),
    /// The download was cancelled: give up at once.
    Stop(LanFlowError),
}

impl ChunkRetry {
    pub fn new() -> (retry: ChunkRetry)
        ensures
            retry@ == (ChunkRetryView { tries: 0, last_error: None }),
    {
        ChunkRetry { tries: 0, last_error: None }
    }

    /// Whether the chunk may be tried.
    pub fn may_try(&self) -> (may: bool)
        ensures
            may == (self@.tries < CHUNK_ATTEMPTS),
            may == may_be_tried(self@),
    {
        self.tries < CHUNK_ATTEMPTS
    }

    /// Notes that a try failed.
    pub fn failed(&mut self, error: LanFlowError) -> (step: RetryStep)
        requires
            old(self)@.tries < CHUNK_ATTEMPTS,
        ensures
            error@ is Cancelled ==> final(self)@ == old(self)@ && (step matches RetryStep::Stop(e)
                && e@ == ErrorView::Cancelled),
            !(error@ is Cancelled) ==> final(self)@ == (ChunkRetryView {
                tries: (old(self)@.tries + 1) as u32,
                last_error: Some(error@),
            }) && (step matches RetryStep::Wait(ms) && ms == retry_delay(old(self)@.tries as nat)),
            final(self)@ == try_failed(old(self)@, error@).0,
            match try_failed(old(self)@, error@).1 {
                Some(delay) => step matches RetryStep::Wait(ms) && ms == delay,
                None => step matches RetryStep::Stop(e) && e@ == ErrorView::Cancelled,
            },
    {
        if matches!(error, LanFlowError::Cancelled) {
            return RetryStep::Stop(LanFlowError::Cancelled);
        }
        proof {
            reveal_with_fuel(retry_delay, 3);
        }
        let delay: u64 = if self.tries == 0 {
            250
        } else if self.tries == 1 {
            500
        } else {
            1000
        };
        self.tries = self.tries + 1;
        self.last_error = Some(error);
        RetryStep::Wait(delay)
    }

    /// The error of a chunk that is given up: that of the last try.
    pub fn into_error(self) -> (error: LanFlowError)
        ensures
            error@ == match self@.last_error {
                Some(e) => e,
                None => ErrorView::Protocol("分片重试失败"@),
            },
            error@ == given_up_with(self@),
    {
        match self.last_error {
            Some(error) => error,
            None => LanFlowError::Protocol("分片重试失败".to_owned()),
        }
    }
}

/// What came of the chunks of a file.
pub struct ChunkResults {
    pub completed: Vec<usize>,
    pub first_error: Option<LanFlowError>,
}

/// The model of [`ChunkResults`].
#[verifier::ext_equal]
pub struct ChunkResultsView {
    pub completed: Seq<usize>,
    pub first_error: Option<ErrorView>,
}

impl View for ChunkResults {
    type V = ChunkResultsView;

    open spec fn view(&self) -> ChunkResultsView {
        ChunkResultsView {
            completed: self.completed@,
            first_error: match self.first_error {
                Some(error) => Some(error@),
                None => None,
            },
        }
    }
}

impl ChunkResults {
    pub fn new() -> (results: ChunkResults)
        ensures
            results@ == (ChunkResultsView { completed: Seq::empty(), first_error: None }),
    {
        ChunkResults { completed: Vec::new(), first_error: None }
    }

    /// Notes a chunk that came in.
    pub fn succeed(&mut self, index: usize)
        ensures
            final(self)@ == (ChunkResultsView {
                completed: old(self)@.completed.push(index),
                ..old(self)@
            }),
    {
        self.completed.push(index);
    }

    /// Notes a chunk that failed; the first error counts.
    pub fn fail(&mut self, error: LanFlowError)
        ensures
            final(self)@ == (ChunkResultsView {
                first_error: match old(self)@.first_error {
                    Some(e) => Some(e),
                    None => Some(error@),
                },
                ..old(self)@
            }),
    {
        if self.first_error.is_none() {
            self.first_error = Some(error);
        }
    }

    /// Whether what came in is noted for a later start: not for files of one
    /// chunk, which are fetched again whole.
    pub fn needs_checkpoint(&self, chunk_count: usize) -> (needed: bool)
        ensures
            needed == (chunk_count > 1 && self@.completed.len() > 0),
    {
        chunk_count > 1 && self.completed.len() > 0
    }
}

/// The error for a file whose contents are wrong although its chunks came in.
pub fn whole_file_error(file: &ManifestFile) -> (error: LanFlowError)
    ensures
        error@ == ErrorView::Protocol(file@.relative_path + " 整文件校验失败"@),
{
    LanFlowError::Protocol(text::joined(file.relative_path.as_str(), " 整文件校验失败"))
}

/// A time in milliseconds as seconds and nanoseconds.
pub fn split_ms(ms: i64) -> (time: (i64, u32))
    ensures
        time.0 == ms as int / 1000,
        time.1 == (ms as int % 1000) * 1_000_000,
{
    if ms >= 0 {
        (ms / 1000, ((ms % 1000) * 1_000_000) as u32)
    } else {
        let positive: u64 = if ms == i64::MIN {
            0x8000_0000_0000_0000
        } else {
            (-ms) as u64
        };
        let whole: u64 = positive / 1000;
        let rest: u64 = positive % 1000;
        if rest == 0 {
            (-(whole as i64), 0)
        } else {
            (-(whole as i64) - 1, ((1000 - rest) * 1_000_000) as u32)
        }
    }
}

// ---------------------------------------------------------------------------
// Names beside a file that is in the way
// ---------------------------------------------------------------------------

/// Where the last of some characters stands in a text.
pub open spec fn last_place(name: Seq<char>, c: char) -> Option<int>
    decreases name.len(),
{
    if name.len() == 0 {
        None
    } else if name.last() == c {
        Some(name.len() - 1)
    } else {
        last_place(name.drop_last(), c)
    }
}

/// A path without the slashes and single dots at its end, which name nothing.
/// The first character stays.
pub open spec fn without_tail(path: Seq<char>) -> Seq<char>
    decreases path.len(),
{
    if path.len() > 1 && (path.last() == '/' || (path.last() == '.' && path[path.len() - 2]
        == '/')) {
        without_tail(path.drop_last())
    } else {
        path
    }
}

/// A path without its last name.
pub open spec fn parent_of(path: Seq<char>) -> Seq<char> {
    let core = without_tail(path);
    match last_place(core, '/') {
        Some(i) => if core.len() == 1 {
            Seq::empty()
        } else {
            without_tail(core.take(i + 1))
        },
        None => Seq::empty(),
    }
}

/// The last name of a path. A path that ends in none, but at the root, here or
/// above, is given one.
pub open spec fn name_of(path: Seq<char>) -> Seq<char> {
    let core = without_tail(path);
    let last = match last_place(core, '/') {
        Some(i) => core.skip(i + 1),
        None => core,
    };
    if last.len() == 0 || last == seq!['.'] || last == seq!['.', '.'] {
        "file"@
    } else {
        last
    }
}

/// Where the extension of a name begins: behind the last dot, unless that is
/// the first character.
pub open spec fn dot_of(name: Seq<char>) -> Option<int> {
    match last_place(name, '.') {
        Some(i) => if i == 0 {
            None
        } else {
            Some(i)
        },
        None => None,
    }
}

/// The name that a second file gets beside one that is in the way.
pub open spec fn beside_name(name: Seq<char>, mark: Seq<char>) -> Seq<char> {
    match dot_of(name) {
        Some(i) => name.take(i) + " (LanFlow "@ + mark + ")"@ + name.skip(i),
        None => name + " (LanFlow "@ + mark + ")"@,
    }
}

/// The path that a second file gets beside one that is in the way.
pub open spec fn beside_path(path: Seq<char>, index: nat) -> Seq<char> {
    paths::path_push(parent_of(path), beside_name(name_of(path), text::decimal(index)))
}

/// The path that is used where all numbered ones are taken.
pub open spec fn fallback_path(path: Seq<char>, id: Seq<char>) -> Seq<char> {
    let name = name_of(path);
    let stem = match dot_of(name) {
        Some(i) => name.take(i),
        None => name,
    };
    paths::path_push(parent_of(path), stem + " (LanFlow "@ + id + ")"@)
}

proof fn lemma_last_place(name: Seq<char>, c: char)
    ensures
        last_place(name, c) matches Some(i) ==> 0 <= i < name.len() && name[i] == c,
        last_place(name, c) matches Some(i) ==> forall|j: int| i < j < name.len() ==> name[j] != c,
        last_place(name, c) is None ==> forall|j: int| 0 <= j < name.len() ==> name[j] != c,
    decreases name.len(),
{
    if name.len() > 0 {
        lemma_last_place(name.drop_last(), c);
        assert forall|j: int| 0 <= j < name.len() - 1 implies name.drop_last()[j] == name[j] by {}
    }
}

fn find_last(name: &[char], c: char) -> (place: Option<usize>)
    ensures
        match last_place(name@, c) {
            Some(i) => place matches Some(p) && p == i && 0 <= i < name@.len(),
            None => place is None,
        },
{
    let mut len: usize = name.len();
    proof {
        lemma_last_place(name@, c);
    }
    assert(name@.take(len as int) =~= name@);
    while len > 0
        invariant
            len <= name@.len(),
            last_place(name@, c) == last_place(name@.take(len as int), c),
            last_place(name@, c) matches Some(i) ==> 0 <= i < name@.len(),
        decreases len,
    {
        proof {
            assert(name@.take(len as int).drop_last() =~= name@.take(len - 1));
            assert(name@.take(len as int).last() == name@[len - 1]);
        }
        if name[len - 1] == c {
            return Some(len - 1);
        }
        len -= 1;
    }
    None
}

/// How much of a path is left without the slashes and dots at its end.
fn find_tail(path: &[char]) -> (end: usize)
    ensures
        end <= path@.len(),
        path@.take(end as int) == without_tail(path@),
{
    let mut end: usize = path.len();
    assert(path@.take(end as int) =~= path@);
    while end > 1 && (path[end - 1] == '/' || (path[end - 1] == '.' && path[end - 2] == '/'))
        invariant
            end <= path@.len(),
            without_tail(path@.take(end as int)) == without_tail(path@),
        decreases end,
    {
        assert(path@.take(end as int).drop_last() =~= path@.take(end - 1));
        end -= 1;
    }
    end
}

/// The parts of a path that a name beside it is made of: the directory, the
/// name up to its extension, and the extension with its dot.
fn split_target(path: &str) -> (parts: (String, String, String))
    ensures
        parts.0@ == parent_of(path@),
        ({
            let name = name_of(path@);
            match dot_of(name) {
                Some(i) => parts.1@ == name.take(i) && parts.2@ == name.skip(i),
                None => parts.1@ == name && parts.2@ == Seq::<char>::empty(),
            }
        }),
{
    let chars = text::chars_of(path);
    let all = chars.as_slice();
    let core = slice_subrange(all, 0, find_tail(all));
    let total: usize = core.len();
    assert(core@ =~= without_tail(path@));
    let (above, last) = match find_last(core, '/') {
        Some(i) => (slice_subrange(core, 0, i + 1), slice_subrange(core, i + 1, total)),
        None => (slice_subrange(core, 0, 0), slice_subrange(core, 0, total)),
    };
    let parent = if total == 1 {
        slice_subrange(core, 0, 0)
    } else {
        slice_subrange(above, 0, find_tail(above))
    };
    proof {
        if let Some(i) = last_place(core@, '/') {
            assert(above@ =~= core@.take(i + 1));
            assert(last@ =~= core@.skip(i + 1));
        } else {
            assert(last@ =~= core@);
        }
        assert(parent@ =~= parent_of(path@));
        if last@.len() == 1 && last@[0] == '.' {
            assert(last@ =~= seq!['.']);
        }
        if last@.len() == 2 && last@[0] == '.' && last@[1] == '.' {
            assert(last@ =~= seq!['.', '.']);
        }
    }
    let unnamed = text::chars_of("file");
    let name = if last.len() == 0 || (last.len() == 1 && last[0] == '.') || (last.len() == 2
        && last[0] == '.' && last[1] == '.') {
        unnamed.as_slice()
    } else {
        last
    };
    assert(name@ == name_of(path@));
    let dot = match find_last(name, '.') {
        Some(i) => if i == 0 {
            None
        } else {
            Some(i)
        },
        None => None,
    };
    match dot {
        Some(i) => {
            let stem = text::text_of(slice_subrange(name, 0, i));
            let extension = text::text_of(slice_subrange(name, i, name.len()));
            assert(stem@ =~= name@.take(i as int));
            assert(extension@ =~= name@.skip(i as int));
            (text::text_of(parent), stem, extension)
        },
        None => (text::text_of(parent), text::text_of(name), String::new()),
    }
}

/// The path that a second file gets beside one that is in the way, for each
/// number.
pub fn keep_both_path(path: &str, index: u64) -> (candidate: String)
    ensures
        candidate@ == beside_path(path@, index as nat),
{
    let (parent, stem, extension) = split_target(path);
    let number = text::decimal_text(index);
    let marked = text::joined(stem.as_str(), " (LanFlow ");
    let numbered = text::joined(marked.as_str(), number.as_str());
    let closed = text::joined(numbered.as_str(), ")");
    let name = text::joined(closed.as_str(), extension.as_str());
    assert(name@ =~= beside_name(name_of(path@), text::decimal(index as nat)));
    paths::push_name(parent.as_str(), name.as_str())
}

/// The path that is used where all numbered ones are taken.
pub fn keep_both_fallback(path: &str, id: &str) -> (candidate: String)
    ensures
        candidate@ == fallback_path(path@, id@),
{
    let (parent, stem, _) = split_target(path);
    let marked = text::joined(stem.as_str(), " (LanFlow ");
    let named = text::joined(marked.as_str(), id);
    let name = text::joined(named.as_str(), ")");
    paths::push_name(parent.as_str(), name.as_str())
}

proof fn lemma_decimal_injective(a: nat, b: nat)
    requires
        text::decimal(a) == text::decimal(b),
    ensures
        a == b,
    decreases a,
{
    let da = text::decimal(a);
    let db = text::decimal(b);
    lemma_decimal_len(a);
    lemma_decimal_len(b);
    if a < 10 {
        if b < 10 {
            assert(da[0] == db[0]);
            assert(da[0] as int == '0' as int + a);
            assert(db[0] as int == '0' as int + b);
        }
    } else {
        if b >= 10 {
            assert(da.last() as int == '0' as int + a % 10);
            assert(db.last() as int == '0' as int + b % 10);
            assert(da.drop_last() =~= text::decimal(a / 10));
            assert(db.drop_last() =~= text::decimal(b / 10));
            assert(da.last() == db.last());
            lemma_decimal_injective(a / 10, b / 10);
        }
    }
}

proof fn lemma_decimal_len(n: nat)
    ensures
        text::decimal(n).len() >= 1,
        n >= 10 ==> text::decimal(n).len() >= 2,
        n < 10 ==> text::decimal(n).len() == 1,
    decreases n,
{
    if n >= 10 {
        lemma_decimal_len(n / 10);
    }
}

/// The numbered paths beside a file all differ.
pub proof fn law_numbered_paths_differ(path: Seq<char>, a: nat, b: nat)
    requires
        beside_path(path, a) == beside_path(path, b),
    ensures
        a == b,
{
    let name = name_of(path);
    let parent = parent_of(path);
    let x = beside_name(name, text::decimal(a));
    let y = beside_name(name, text::decimal(b));
    let before = if parent.len() == 0 || parent.last() == '/' {
        parent
    } else {
        parent + seq!['/']
    };
    assert(paths::path_push(parent, x) =~= before + x);
    assert(paths::path_push(parent, y) =~= before + y);
    assert((before + x).skip(before.len() as int) =~= x);
    assert((before + y).skip(before.len() as int) =~= y);
    lemma_last_place(name, '.');
    let stem = match dot_of(name) {
        Some(i) => name.take(i),
        None => name,
    };
    let tail = match dot_of(name) {
        Some(i) => ")"@ + name.skip(i),
        None => ")"@,
    };
    let head = stem + " (LanFlow "@;
    let da = text::decimal(a);
    let db = text::decimal(b);
    assert(x =~= head + da + tail);
    assert(y =~= head + db + tail);
    assert(da.len() == db.len());
    assert(x.subrange(head.len() as int, (head.len() + da.len()) as int) =~= da);
    assert(y.subrange(head.len() as int, (head.len() + db.len()) as int) =~= db);
    lemma_decimal_injective(a, b);
}

proof fn lemma_last_one_at(name: Seq<char>, c: char, i: int)
    requires
        0 <= i < name.len(),
        name[i] == c,
        forall|j: int| i < j < name.len() ==> name[j] != c,
    ensures
        last_place(name, c) == Some(i),
{
    lemma_last_place(name, c);
}

/// A second file is put beside the first: in the same directory, under the name
/// of the first with a number between what stands before its last dot and its
/// extension. `stem` and `extension` are the two parts of the name.
pub proof fn law_second_file_lies_beside_the_first(
    directory: Seq<char>,
    stem: Seq<char>,
    extension: Seq<char>,
    index: nat,
    id: Seq<char>,
)
    requires
        directory.len() > 0,
        directory.last() != '/',
        !(directory.len() > 1 && directory.last() == '.' && directory[directory.len() - 2] == '/'),
        stem.len() > 0,
        extension.len() > 0,
        !stem.contains('/'),
        !extension.contains('/'),
        !extension.contains('.'),
    ensures
        beside_path(directory + "/"@ + stem + "."@ + extension, index) == directory + "/"@ + stem
            + " (LanFlow "@ + text::decimal(index) + ")"@ + "."@ + extension,
        fallback_path(directory + "/"@ + stem + "."@ + extension, id) == directory + "/"@ + stem
            + " (LanFlow "@ + id + ")"@,
{
    reveal_strlit("/");
    reveal_strlit(".");
    let name = stem + "."@ + extension;
    let path = directory + "/"@ + stem + "."@ + extension;
    lemma_beside_parts(directory, name);
    assert(path =~= directory + "/"@ + name);
    lemma_dot_between(stem, extension);
    let numbered = beside_name(name, text::decimal(index));
    assert(numbered =~= stem + " (LanFlow "@ + text::decimal(index) + ")"@ + "."@ + extension);
    assert(paths::path_push(directory, numbered) =~= directory + "/"@ + stem + " (LanFlow "@
        + text::decimal(index) + ")"@ + "."@ + extension);
    assert(paths::path_push(directory, stem + " (LanFlow "@ + id + ")"@) =~= directory + "/"@ + stem
        + " (LanFlow "@ + id + ")"@);
}

/// A file without an extension gets the number at the end of its name.
pub proof fn law_second_file_without_extension(
    directory: Seq<char>,
    name: Seq<char>,
    index: nat,
    id: Seq<char>,
)
    requires
        directory.len() > 0,
        directory.last() != '/',
        !(directory.len() > 1 && directory.last() == '.' && directory[directory.len() - 2] == '/'),
        name.len() > 0,
        !name.contains('/'),
        !name.contains('.'),
    ensures
        beside_path(directory + "/"@ + name, index) == directory + "/"@ + name + " (LanFlow "@
            + text::decimal(index) + ")"@,
        fallback_path(directory + "/"@ + name, id) == directory + "/"@ + name + " (LanFlow "@ + id
            + ")"@,
{
    reveal_strlit("/");
    assert(name.last() == name[name.len() - 1]);
    lemma_beside_parts(directory, name);
    lemma_last_place(name, '.');
    assert(dot_of(name) is None);
    assert(paths::path_push(
        directory,
        name + " (LanFlow "@ + text::decimal(index) + ")"@,
    ) =~= directory + "/"@ + name + " (LanFlow "@ + text::decimal(index) + ")"@);
    assert(paths::path_push(directory, name + " (LanFlow "@ + id + ")"@) =~= directory + "/"@ + name
        + " (LanFlow "@ + id + ")"@);
}

proof fn lemma_dot_between(stem: Seq<char>, extension: Seq<char>)
    requires
        stem.len() > 0,
        !extension.contains('.'),
    ensures
        ({
            let name = stem + "."@ + extension;
            &&& dot_of(name) == Some(stem.len() as int)
            &&& name.take(stem.len() as int) == stem
            &&& name.skip(stem.len() as int) == "."@ + extension
        }),
{
    reveal_strlit(".");
    let name = stem + "."@ + extension;
    let i = stem.len() as int;
    assert forall|j: int| i < j < name.len() implies name[j] != '.' by {
        assert(name[j] == extension[j - i - 1]);
        assert(extension.contains(extension[j - i - 1]));
    }
    assert(name[i] == '.');
    lemma_last_one_at(name, '.', i);
    assert(name.take(i) =~= stem);
    assert(name.skip(i) =~= "."@ + extension);
}

proof fn lemma_beside_parts(directory: Seq<char>, name: Seq<char>)
    requires
        directory.len() > 0,
        directory.last() != '/',
        !(directory.len() > 1 && directory.last() == '.' && directory[directory.len() - 2] == '/'),
        name.len() > 0,
        name.last() != '.',
        forall|i: int| 0 <= i < name.len() ==> #[trigger] name[i] != '/',
    ensures
        parent_of(directory + "/"@ + name) == directory,
        name_of(directory + "/"@ + name) == name,
{
    reveal_strlit("/");
    let path = directory + "/"@ + name;
    let i = directory.len() as int;
    assert(path.last() == name.last());
    assert(name[name.len() - 1] != '/');
    assert(without_tail(path) == path);
    assert forall|j: int| i < j < path.len() implies path[j] != '/' by {
        assert(path[j] == name[j - i - 1]);
    }
    assert(path[i] == '/');
    lemma_last_one_at(path, '/', i);
    let above = path.take(i + 1);
    assert(above.drop_last() =~= directory);
    assert(above.last() == '/');
    assert(without_tail(directory) == directory);
    assert(without_tail(above) == directory);
    assert(path.skip(i + 1) =~= name);
}

/// The last number that is tried for a name beside a file.
pub const LAST_NUMBER: u64 = 9_999;

/// The search for a name beside a file that no other file has: the numbers are
/// tried one after the other.
pub struct NameSearch {
    pub path: String,
    pub index: u64,
}

/// The model of a [`NameSearch`].
#[verifier::ext_equal]
pub struct NameSearchView {
    pub path: Seq<char>,
    pub index: nat,
}

impl View for NameSearch {
    type V = NameSearchView;

    open spec fn view(&self) -> NameSearchView {
        NameSearchView { path: self.path@, index: self.index as nat }
    }
}

/// What the search for a name leads to.
pub enum NameStep {
    /// No file has this name.
    Found(String),
    /// Look whether a file has this name.
    Try(String),
    /// All numbers are taken.
    GiveUp,
}

/// The model of a [`NameStep`].
#[verifier::ext_equal]
pub enum NameStepView {
    Found(Seq<char>),
    Try(Seq<char>),
    GiveUp,
}

impl View for NameStep {
    type V = NameStepView;

    open spec fn view(&self) -> NameStepView {
        match self {
            NameStep::Found(path) => NameStepView::Found(path@),
            NameStep::Try(path) => NameStepView::Try(path@),
            NameStep::GiveUp => NameStepView::GiveUp,
        }
    }
}

/// What a search becomes, and what it leads to, once it is known whether the
/// name with its number is taken.
pub open spec fn name_step(search: NameSearchView, taken: bool) -> (NameSearchView, NameStepView) {
    if !taken {
        (search, NameStepView::Found(beside_path(search.path, search.index)))
    } else if search.index < LAST_NUMBER {
        let next = NameSearchView { index: search.index + 1, ..search };
        (next, NameStepView::Try(beside_path(next.path, next.index)))
    } else {
        (search, NameStepView::GiveUp)
    }
}

impl NameSearch {
    /// Begins the search beside a path; the result is the first name to look
    /// for.
    pub fn start(path: String) -> (started: (NameSearch, String))
        ensures
            started.0@ == (NameSearchView { path: path@, index: 1 }),
            started.1@ == beside_path(path@, 1),
    {
        let first = keep_both_path(path.as_str(), 1);
        (NameSearch { path, index: 1 }, first)
    }

    /// Goes on, once it is known whether the name last tried is taken.
    pub fn step(&mut self, taken: bool) -> (step: NameStep)
        ensures
            (final(self)@, step@) == name_step(old(self)@, taken),
    {
        if !taken {
            NameStep::Found(keep_both_path(self.path.as_str(), self.index))
        } else if self.index < LAST_NUMBER {
            self.index = self.index + 1;
            NameStep::Try(keep_both_path(self.path.as_str(), self.index))
        } else {
            NameStep::GiveUp
        }
    }
}

/// The name that a search finds from a number on, where `taken` tells which
/// paths are taken.
pub open spec fn found_name(
    path: Seq<char>,
    index: nat,
    taken: spec_fn(Seq<char>) -> bool,
) -> Option<Seq<char>>
    decreases LAST_NUMBER + 1 - index,
{
    match name_step(NameSearchView { path, index }, taken(beside_path(path, index))) {
        (_, NameStepView::Found(name)) => Some(name),
        (next, NameStepView::Try(_)) => found_name(path, next.index, taken),
        (_, NameStepView::GiveUp) => None,
    }
}

proof fn lemma_found_name(path: Seq<char>, index: nat, taken: spec_fn(Seq<char>) -> bool)
    requires
        index <= LAST_NUMBER,
    ensures
        match found_name(path, index, taken) {
            Some(name) => exists|i: nat|
                index <= i <= LAST_NUMBER && name == #[trigger] beside_path(path, i) && !taken(name)
                    && forall|j: nat| index <= j < i ==> taken(#[trigger] beside_path(path, j)),
            None => forall|i: nat|
                index <= i <= LAST_NUMBER ==> taken(#[trigger] beside_path(path, i)),
        },
    decreases LAST_NUMBER + 1 - index,
{
    if taken(beside_path(path, index)) && index < LAST_NUMBER {
        lemma_found_name(path, index + 1, taken);
        if let Some(name) = found_name(path, index + 1, taken) {
            let i = choose|i: nat|
                index + 1 <= i <= LAST_NUMBER && name == #[trigger] beside_path(path, i) && !taken(
                    name,
                ) && forall|j: nat| index + 1 <= j < i ==> taken(#[trigger] beside_path(path, j));
            assert forall|j: nat| index <= j < i implies taken(#[trigger] beside_path(path, j)) by {
                if j == index {
                    assert(taken(beside_path(path, index)));
                }
            }
            assert(name == beside_path(path, i));
        }
    }
}

/// The search takes the name with the least number that is free, and gives up
/// only where all numbers are taken.
pub proof fn law_least_free_name_is_found(path: Seq<char>, taken: spec_fn(Seq<char>) -> bool)
    ensures
        match found_name(path, 1, taken) {
            Some(name) => exists|i: nat|
                1 <= i <= LAST_NUMBER && name == #[trigger] beside_path(path, i) && !taken(name)
                    && forall|j: nat| 1 <= j < i ==> taken(#[trigger] beside_path(path, j)),
            None => forall|i: nat| 1 <= i <= LAST_NUMBER ==> taken(#[trigger] beside_path(path, i)),
        },
{
    lemma_found_name(path, 1, taken);
}

// ---------------------------------------------------------------------------
// What is reported
// ---------------------------------------------------------------------------

/// How many finished files are noted at once.
pub const COMPLETION_BATCH: usize = 256;

/// The files of a download that are done, and those of them that are still to
/// be noted.
pub struct Completion {
    pub pending: Vec<String>,
    pub completed_files: u64,
    pub current_file: String,
}

/// The model of a [`Completion`].
#[verifier::ext_equal]
pub struct CompletionView {
    pub pending: Seq<Seq<char>>,
    pub completed_files: u64,
    pub current_file: Seq<char>,
}

impl View for Completion {
    type V = CompletionView;

    open spec fn view(&self) -> CompletionView {
        CompletionView {
            pending: fields::views(self.pending@),
            completed_files: self.completed_files,
            current_file: self.current_file@,
        }
    }
}

impl Completion {
    pub fn new() -> (completion: Completion)
        ensures
            completion@ == (CompletionView {
                pending: Seq::empty(),
                completed_files: 0,
                current_file: Seq::empty(),
            }),
    {
        let completion = Completion {
            pending: Vec::new(),
            completed_files: 0,
            current_file: String::new(),
        };
        assert(completion@.pending =~= Seq::empty());
        assert(completion@.current_file =~= Seq::empty());
        completion
    }

    /// Counts a finished file. The result tells whether it is time to note
    /// the files that are pending.
    pub fn finish_file(&mut self, id: String, relative_path: String) -> (full: bool)
        requires
            old(self)@.completed_files < u64::MAX,
        ensures
            final(self)@ == (CompletionView {
                pending: old(self)@.pending.push(id@),
                completed_files: (old(self)@.completed_files + 1) as u64,
                current_file: relative_path@,
            }),
            full == (final(self)@.pending.len() >= COMPLETION_BATCH),
    {
        let ghost before = self@;
        self.current_file = relative_path;
        self.completed_files = self.completed_files + 1;
        self.pending.push(id);
        assert(self@.pending =~= before.pending.push(id@));
        self.pending.len() >= COMPLETION_BATCH
    }

    /// Hands the pending files over.
    pub fn take_pending(&mut self) -> (ids: Vec<String>)
        ensures
            fields::views(ids@) == old(self)@.pending,
            final(self)@ == (CompletionView { pending: Seq::empty(), ..old(self)@ }),
    {
        let mut ids: Vec<String> = Vec::new();
        let ghost before = self.pending@;
        ids.append(&mut self.pending);
        proof {
            assert(ids@ =~= before);
            assert(self@.pending =~= Seq::empty());
        }
        ids
    }
}

/// A report on a download.
pub fn progress_event(
    task_id: &str,
    status: &str,
    completed_bytes: u64,
    total_bytes: u64,
    speed_bps: u64,
    completed_files: u64,
    file_count: u64,
    current_file: &str,
) -> (event: TaskProgressEvent)
    ensures
        event@ == (TaskProgressEventView {
            task_id: task_id@,
            status: status@,
            completed_bytes,
            total_bytes,
            speed_bps,
            completed_files,
            file_count,
            current_file: current_file@,
        }),
{
    TaskProgressEvent {
        task_id: task_id.to_owned(),
        status: status.to_owned(),
        completed_bytes,
        total_bytes,
        speed_bps,
        completed_files,
        file_count,
        current_file: current_file.to_owned(),
    }
}

/// The report on a download that is complete: no file is being fetched.
pub fn finished_event(
    task_id: &str,
    completion: &Completion,
    done: u64,
    total_bytes: u64,
    file_count: u64,
) -> (event: TaskProgressEvent)
    ensures
        event@ == finished_report(task_id@, completion@, done, total_bytes, file_count),
{
    let event = progress_event(
        task_id,
        "completed",
        done,
        total_bytes,
        0,
        completion.completed_files,
        file_count,
        "",
    );
    proof {
        reveal_strlit("");
        assert(event@.current_file =~= Seq::empty());
    }
    event
}

/// The report on a download that is complete: no file is being fetched.
pub open spec fn finished_report(
    task_id: Seq<char>,
    completion: CompletionView,
    done: u64,
    total_bytes: u64,
    file_count: u64,
) -> TaskProgressEventView {
    TaskProgressEventView {
        task_id,
        status: "completed"@,
        completed_bytes: done,
        total_bytes,
        speed_bps: 0,
        completed_files: completion.completed_files,
        file_count,
        current_file: Seq::empty(),
    }
}

/// The report on a download that failed: the error stands for the file.
pub open spec fn failure_report(task: TaskDtoView, error: ErrorView) -> TaskProgressEventView {
    TaskProgressEventView {
        task_id: task.id,
        status: "failed"@,
        completed_bytes: task.completed_bytes,
        total_bytes: task.total_bytes,
        speed_bps: 0,
        completed_files: task.completed_files,
        file_count: task.file_count,
        current_file: error.text(),
    }
}

/// The report on a download that failed.
pub fn failure_event(task: &TaskDto, error: &LanFlowError) -> (event: TaskProgressEvent)
    ensures
        event@ == failure_report(task@, error@),
{
    let text = error.message();
    progress_event(
        task.id.as_str(),
        "failed",
        task.completed_bytes,
        task.total_bytes,
        0,
        task.completed_files,
        task.file_count,
        text.as_str(),
    )
}

} // verus!
