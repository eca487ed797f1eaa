//! The frames that answer a request.

use vstd::prelude::*;

use crate::fields;
use crate::frame::{Frame, FrameHeader, FrameType, FrameView, FLAG_MORE};
use crate::message;
use crate::protocol;
use crate::protocol::DEFAULT_DATA_FRAME_SIZE;
use crate::snapshot::{SnapshotBuildProgress, SnapshotBuildProgressView};
use crate::wire::envelope::{EnvelopeView, Payload, PayloadView};
use crate::wire::snapshot::{
    ChunkHash,
    ChunkHashView,
    ManifestFile,
    ManifestFileView,
    SnapshotProgress,
    SnapshotProgressView,
};
use crate::wire::transfer::{
    ChunkComplete,
    ChunkCompleteView,
    Error,
    ErrorView,
    SmallFileComplete,
    SmallFileCompleteView,
};

verus! {

/// The header of an answer: it names the stream and the request it belongs to.
pub open spec fn reply_header(request: FrameHeader, frame_type: FrameType, flags: u32) -> FrameHeader {
    FrameHeader { flags, ..FrameHeader::plain(frame_type, request.stream_id, request.request_id) }
}

/// An answer that carries a message.
pub open spec fn flagged_reply(
    request: FrameHeader,
    frame_type: FrameType,
    flags: u32,
    payload: PayloadView,
) -> FrameView {
    FrameView {
        header: reply_header(request, frame_type, flags),
        body: message::encoded(EnvelopeView { payload: Some(payload) }),
    }
}

/// A last answer that carries a message.
pub open spec fn reply(request: FrameHeader, frame_type: FrameType, payload: PayloadView) -> FrameView {
    flagged_reply(request, frame_type, 0, payload)
}

/// An answer that reports a failure.
pub open spec fn error_reply(
    request: FrameHeader,
    code: u32,
    text: Seq<char>,
    retryable: bool,
) -> FrameView {
    reply(
        request,
        FrameType::Error,
        PayloadView::Error(ErrorView { code, message: text, retryable }),
    )
}

/// An answer that carries a message, with flags.
pub fn envelope_frame_with_flags(
    request: &FrameHeader,
    frame_type: FrameType,
    flags: u32,
    payload: Payload,
) -> (frame: Frame)
    ensures
        frame@ == flagged_reply(*request, frame_type, flags, payload@),
{
    let header = FrameHeader {
        flags,
        ..FrameHeader::new(frame_type, request.stream_id, request.request_id)
    };
    let body = message::encode(&protocol::envelope(payload));
    Frame { header, body }
}

/// A last answer that carries a message.
pub fn envelope_frame(request: &FrameHeader, frame_type: FrameType, payload: Payload) -> (frame:
    Frame)
    ensures
        frame@ == reply(*request, frame_type, payload@),
{
    envelope_frame_with_flags(request, frame_type, 0, payload)
}

/// An answer that reports a failure.
pub fn error_frame(request: &FrameHeader, code: u32, text: &str, retryable: bool) -> (frame: Frame)
    ensures
        frame@ == error_reply(*request, code, text@, retryable),
{
    let payload = Payload::Error(Error { code, message: text.to_owned(), retryable });
    envelope_frame(request, FrameType::Error, payload)
}

// ---------------------------------------------------------------------------
// File contents
// ---------------------------------------------------------------------------

/// A part of a file that travels in one frame.
#[derive(Clone, Copy, Debug, PartialEq, Eq, Structural)]
pub struct DataBlock {
    pub offset: u64,
    pub length: usize,
    pub sequence: u32,
}

/// Whether blocks cover a stretch of a file: in order and without gaps, each
/// as long as a frame allows but for the last.
pub open spec fn covers(blocks: Seq<DataBlock>, offset: nat, length: nat) -> bool {
    &&& blocks.len() * DEFAULT_DATA_FRAME_SIZE >= length
    &&& blocks.len() > 0 ==> (blocks.len() - 1) * DEFAULT_DATA_FRAME_SIZE < length
    &&& forall|i: int|
        0 <= i < blocks.len() ==> (#[trigger] blocks[i]).sequence == i && blocks[i].offset == offset
            + i * DEFAULT_DATA_FRAME_SIZE && blocks[i].length == if (i + 1) * DEFAULT_DATA_FRAME_SIZE
            <= length {
            DEFAULT_DATA_FRAME_SIZE as int
        } else {
            length - i * DEFAULT_DATA_FRAME_SIZE
        }
}

/// The blocks in which a stretch of a file travels.
pub fn data_blocks(offset: u64, length: u32) -> (blocks: Vec<DataBlock>)
    requires
        offset + length <= u64::MAX,
    ensures
        covers(blocks@, offset as nat, length as nat),
{
    let mut blocks: Vec<DataBlock> = Vec::new();
    let mut remaining: u32 = length;
    let mut position: u64 = offset;
    let mut sequence: u32 = 0;
    while remaining > 0
        invariant
            offset + length <= u64::MAX,
            remaining <= length,
            position == offset + (length - remaining),
            sequence == blocks@.len(),
            remaining > 0 ==> length - remaining == sequence * DEFAULT_DATA_FRAME_SIZE,
            blocks@.len() * DEFAULT_DATA_FRAME_SIZE >= length - remaining,
            blocks@.len() > 0 ==> (blocks@.len() - 1) * DEFAULT_DATA_FRAME_SIZE < length,
            forall|i: int|
                0 <= i < blocks@.len() ==> (#[trigger] blocks@[i]).sequence == i && blocks@[i].offset
                    == offset + i * DEFAULT_DATA_FRAME_SIZE && blocks@[i].length == if (i + 1)
                    * DEFAULT_DATA_FRAME_SIZE <= length {
                    DEFAULT_DATA_FRAME_SIZE as int
                } else {
                    length - i * DEFAULT_DATA_FRAME_SIZE
                },
        decreases remaining,
    {
        let size: u32 = if remaining < DEFAULT_DATA_FRAME_SIZE as u32 {
            remaining
        } else {
            DEFAULT_DATA_FRAME_SIZE as u32
        };
        blocks.push(DataBlock { offset: position, length: size as usize, sequence });
        remaining = remaining - size;
        position = position + size as u64;
        sequence = sequence + 1;
    }
    blocks
}

/// The contents of a stretch of a file that the first `n` blocks carry, where
/// `data` is what the file holds from the stretch's offset on.
pub open spec fn carried(blocks: Seq<DataBlock>, data: Seq<u8>, offset: nat, n: nat) -> Seq<u8>
    decreases n,
{
    if n == 0 {
        Seq::empty()
    } else {
        let block = blocks[n - 1];
        carried(blocks, data, offset, (n - 1) as nat) + block_contents(block, data, offset)
    }
}

/// The contents of a block, where `data` is what the file holds from `offset`
/// on.
pub open spec fn block_contents(block: DataBlock, data: Seq<u8>, offset: nat) -> Seq<u8> {
    data.subrange(block.offset - offset, block.offset - offset + block.length)
}

pub proof fn lemma_carried(blocks: Seq<DataBlock>, data: Seq<u8>, offset: nat, n: nat)
    requires
        covers(blocks, offset, data.len()),
        n <= blocks.len(),
    ensures
        carried(blocks, data, offset, n) == data.take(
            if n * DEFAULT_DATA_FRAME_SIZE <= data.len() {
                n * DEFAULT_DATA_FRAME_SIZE
            } else {
                data.len() as int
            },
        ),
    decreases n,
{
    if n == 0 {
        assert(data.take(0) =~= Seq::empty());
    } else {
        lemma_carried(blocks, data, offset, (n - 1) as nat);
        let block = blocks[n - 1];
        let start = (n - 1) * DEFAULT_DATA_FRAME_SIZE;
        assert(start < data.len());
        assert(block.offset - offset == start);
        assert(data.take(start) + data.subrange(start, start + block.length) =~= data.take(
            start + block.length,
        ));
    }
}

/// The blocks of a stretch of a file carry the whole stretch, in order, and
/// none is larger than a data frame may be.
pub proof fn law_blocks_carry_all(blocks: Seq<DataBlock>, data: Seq<u8>, offset: nat)
    requires
        covers(blocks, offset, data.len()),
    ensures
        carried(blocks, data, offset, blocks.len()) == data,
        forall|i: int|
            0 <= i < blocks.len() ==> 0 < (#[trigger] blocks[i]).length <= DEFAULT_DATA_FRAME_SIZE,
{
    lemma_carried(blocks, data, offset, blocks.len());
    assert(data.take(data.len() as int) =~= data);
    assert forall|i: int| 0 <= i < blocks.len() implies 0 < (#[trigger] blocks[i]).length
        <= DEFAULT_DATA_FRAME_SIZE by {
        assert(i * DEFAULT_DATA_FRAME_SIZE <= (blocks.len() - 1) * DEFAULT_DATA_FRAME_SIZE);
    }
}

/// The frames that send a chunk: its blocks, and a frame that says that it is
/// complete. `data` is what the chunk holds.
pub open spec fn chunk_frames(
    request: FrameHeader,
    file_id: Seq<char>,
    chunk: ChunkHashView,
    blocks: Seq<DataBlock>,
    data: Seq<u8>,
) -> Seq<FrameView> {
    blocks.map_values(
        |block: DataBlock|
            data_reply(
                request,
                block.offset,
                block.sequence,
                block_contents(block, data, chunk.offset as nat),
            ),
    ).push(reply(request, FrameType::Control, chunk_complete(file_id, chunk)))
}

/// A frame with a part of a file.
pub open spec fn data_reply(
    request: FrameHeader,
    offset: u64,
    sequence: u32,
    body: Seq<u8>,
) -> FrameView {
    FrameView {
        header: FrameHeader {
            file_offset: offset,
            sequence,
            ..FrameHeader::plain(FrameType::Data, request.stream_id, request.request_id)
        },
        body,
    }
}

/// A frame with a part of a file.
pub fn data_frame(request: &FrameHeader, offset: u64, sequence: u32, body: Vec<u8>) -> (frame: Frame)
    ensures
        frame@ == data_reply(*request, offset, sequence, body@),
{
    let header = FrameHeader {
        file_offset: offset,
        sequence,
        ..FrameHeader::new(FrameType::Data, request.stream_id, request.request_id)
    };
    Frame { header, body }
}

/// What follows the data of a chunk.
pub open spec fn chunk_complete(file_id: Seq<char>, chunk: ChunkHashView) -> PayloadView {
    PayloadView::ChunkComplete(
        ChunkCompleteView {
            file_id,
            chunk_index: chunk.index,
            blake3: chunk.blake3,
            bytes_sent: chunk.length as u64,
        },
    )
}

/// The frame that follows the data of a chunk.
pub fn chunk_complete_frame(request: &FrameHeader, file_id: String, chunk: &ChunkHash) -> (frame:
    Frame)
    ensures
        frame@ == reply(*request, FrameType::Control, chunk_complete(file_id@, chunk@)),
{
    let complete = ChunkComplete {
        file_id,
        chunk_index: chunk.index,
        blake3: fields::copy_bytes(chunk.blake3.as_slice()),
        bytes_sent: chunk.length as u64,
    };
    envelope_frame(request, FrameType::Control, Payload::ChunkComplete(complete))
}

/// What follows the data of a file of a batch.
pub open spec fn small_file_complete(file: ManifestFileView) -> PayloadView {
    PayloadView::SmallFileComplete(
        SmallFileCompleteView { file_id: file.id, blake3: file.blake3, bytes_sent: file.size },
    )
}

/// The frame that follows the data of a file of a batch; more follow.
pub fn small_file_complete_frame(request: &FrameHeader, file: &ManifestFile) -> (frame: Frame)
    ensures
        frame@ == flagged_reply(
            *request,
            FrameType::Control,
            FLAG_MORE,
            small_file_complete(file@),
        ),
{
    let complete = SmallFileComplete {
        file_id: file.id.clone(),
        blake3: fields::copy_bytes(file.blake3.as_slice()),
        bytes_sent: file.size,
    };
    envelope_frame_with_flags(
        request,
        FrameType::Control,
        FLAG_MORE,
        Payload::SmallFileComplete(complete),
    )
}

/// What follows the data of a file of a batch names the file and tells its hash
/// and its size; what follows the data of a chunk names the file and the chunk,
/// and tells the hash and the length of the chunk.
pub proof fn law_completed_data_is_named(
    file: ManifestFileView,
    file_id: Seq<char>,
    chunk: ChunkHashView,
)
    ensures
        small_file_complete(file) matches PayloadView::SmallFileComplete(told) && told.file_id
            == file.id && told.blake3 == file.blake3 && told.bytes_sent == file.size,
        chunk_complete(file_id, chunk) matches PayloadView::ChunkComplete(told) && told.file_id
            == file_id && told.chunk_index == chunk.index && told.blake3 == chunk.blake3
            && told.bytes_sent == chunk.length,
{
}

/// A data frame carries its bytes, says where in the file they belong and which
/// of the frames it is, and names the request it answers.
pub proof fn law_data_frames_tell_their_place(
    request: FrameHeader,
    offset: u64,
    sequence: u32,
    body: Seq<u8>,
)
    ensures
        ({
            let frame = data_reply(request, offset, sequence, body);
            &&& frame.body == body
            &&& frame.header.frame_type == FrameType::Data
            &&& frame.header.file_offset == offset
            &&& frame.header.sequence == sequence
            &&& frame.header.request_id == request.request_id
            &&& frame.header.stream_id == request.stream_id
        }),
{
}

// ---------------------------------------------------------------------------
// Progress of a snapshot
// ---------------------------------------------------------------------------

/// A progress report as a message.
pub open spec fn progress_message(progress: SnapshotBuildProgressView) -> SnapshotProgressView {
    SnapshotProgressView {
        snapshot_id: progress.snapshot_id,
        phase: progress.phase,
        scanned_entries: progress.scanned_entries,
        total_entries: progress.total_entries,
        prepared_bytes: progress.prepared_bytes,
        total_bytes: progress.total_bytes,
        cache_hits: progress.cache_hits,
        current_path: progress.current_path,
        hash_workers: progress.hash_workers,
        speed_bps: progress.speed_bps,
    }
}

/// The answer with a progress report; more follow.
pub open spec fn progress_reply(
    request: FrameHeader,
    progress: SnapshotBuildProgressView,
) -> FrameView {
    flagged_reply(
        request,
        FrameType::Control,
        FLAG_MORE,
        PayloadView::SnapshotProgress(progress_message(progress)),
    )
}

/// The frame for a progress report; more follow.
pub fn progress_frame(request: &FrameHeader, progress: SnapshotBuildProgress) -> (frame: Frame)
    ensures
        frame@ == progress_reply(*request, progress@),
{
    let report = SnapshotProgress {
        snapshot_id: progress.snapshot_id,
        phase: progress.phase,
        scanned_entries: progress.scanned_entries,
        total_entries: progress.total_entries,
        prepared_bytes: progress.prepared_bytes,
        total_bytes: progress.total_bytes,
        cache_hits: progress.cache_hits,
        current_path: progress.current_path,
        hash_workers: progress.hash_workers,
        speed_bps: progress.speed_bps,
    };
    envelope_frame_with_flags(
        request,
        FrameType::Control,
        FLAG_MORE,
        Payload::SnapshotProgress(report),
    )
}

} // verus!
