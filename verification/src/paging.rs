//! Sending a large snapshot in pages, each of which fits in a frame.

use vstd::prelude::*;
use vstd::utf8;

use crate::error;
use crate::error::LanFlowError;
use crate::fields;
use crate::fields::{Field, FieldValue};
use crate::frame::{Frame, FrameHeader, FrameType, FrameView, FLAG_MORE};
use crate::message;
use crate::message::Model;
use crate::outside::protobuf;
use crate::protocol::MAX_FRAME_SIZE;
use crate::replies;
use crate::replies::envelope_frame_with_flags;
use crate::snapshot::{SnapshotFileView, SnapshotRecord, SnapshotView};
use crate::text;
use crate::wire::envelope::{EnvelopeView, Payload, PayloadView};
use crate::wire::snapshot::{
    ManifestFile,
    ManifestFileView,
    SnapshotManifestPage,
    SnapshotManifestPageView,
};

verus! {

/// The size that a page aims at.
pub const PAGE_TARGET: usize = 524_288;

/// The room that a page keeps for what is not a file.
pub const PAGE_MARGIN: usize = 32;

/// The room that a file takes in a page beyond its own bytes.
pub const FILE_MARGIN: usize = 8;

/// Pages that are being filled: those that are full, the one that is open and
/// the size that is counted for it; and the path of a file that fits in no
/// page.
#[verifier::ext_equal]
pub struct Paging {
    pub full: Seq<Seq<ManifestFileView>>,
    pub open: Seq<ManifestFileView>,
    pub size: nat,
    pub too_large: Option<Seq<char>>,
}

/// The size that is counted for a file.
pub open spec fn counted(file: ManifestFileView) -> nat {
    message::encoded(file).len() + FILE_MARGIN as nat
}

/// Pages with nothing in them, for a snapshot identity of the given length.
pub open spec fn no_pages(id_len: nat) -> Paging {
    Paging {
        full: Seq::empty(),
        open: Seq::empty(),
        size: id_len + PAGE_MARGIN as nat,
        too_large: None,
    }
}

/// Pages with one more file: a page that would grow too large is closed first.
pub open spec fn with_file(paging: Paging, id_len: nat, file: ManifestFileView) -> Paging {
    if paging.too_large is Some {
        paging
    } else {
        let turned = if paging.open.len() > 0 && paging.size + counted(file) > PAGE_TARGET {
            Paging {
                full: paging.full.push(paging.open),
                open: Seq::empty(),
                size: id_len + PAGE_MARGIN as nat,
                too_large: None,
            }
        } else {
            paging
        };
        if counted(file) > MAX_FRAME_SIZE / 2 {
            Paging { too_large: Some(file.relative_path), ..turned }
        } else {
            Paging { open: turned.open.push(file), size: turned.size + counted(file), ..turned }
        }
    }
}

/// The pages that some files make.
pub open spec fn paging_of(files: Seq<ManifestFileView>, id_len: nat) -> Paging
    decreases files.len(),
{
    if files.len() == 0 {
        no_pages(id_len)
    } else {
        with_file(paging_of(files.drop_last(), id_len), id_len, files.last())
    }
}

/// A page as a message.
pub open spec fn page_message(id: Seq<char>, files: Seq<ManifestFileView>, done: bool) -> PayloadView {
    PayloadView::SnapshotManifestPage(
        SnapshotManifestPageView { snapshot_id: id, files, done, error: Seq::empty() },
    )
}

/// The frame of a page; one that is not the last says that more follow.
pub open spec fn page_frame(
    request: FrameHeader,
    id: Seq<char>,
    files: Seq<ManifestFileView>,
    done: bool,
) -> FrameView {
    replies::flagged_reply(
        request,
        FrameType::Control,
        if done {
            0
        } else {
            FLAG_MORE
        },
        page_message(id, files, done),
    )
}

/// The frames of the pages that are full.
pub open spec fn full_page_frames(
    request: FrameHeader,
    id: Seq<char>,
    full: Seq<Seq<ManifestFileView>>,
) -> Seq<FrameView> {
    full.map_values(|files: Seq<ManifestFileView>| page_frame(request, id, files, false))
}

/// The length of a snapshot's identity in bytes.
pub open spec fn id_len(id: Seq<char>) -> nat {
    utf8::encode_utf8(id).len()
}

/// The descriptions of a snapshot's files.
pub open spec fn manifests(snapshot: SnapshotView) -> Seq<ManifestFileView> {
    snapshot.files.map_values(|file: SnapshotFileView| file.manifest)
}

/// The frames that send a snapshot: its full pages, and the last one unless a
/// file fits in no page.
pub open spec fn snapshot_frames(request: FrameHeader, snapshot: SnapshotView) -> Seq<FrameView> {
    let paging = paging_of(manifests(snapshot), id_len(snapshot.id));
    let frames = full_page_frames(request, snapshot.id, paging.full);
    if paging.too_large is Some {
        frames
    } else {
        frames.push(page_frame(request, snapshot.id, paging.open, true))
    }
}

/// Why a snapshot cannot be sent, if it cannot.
pub open spec fn snapshot_refusal(snapshot: SnapshotView) -> Option<error::ErrorView> {
    match paging_of(manifests(snapshot), id_len(snapshot.id)).too_large {
        Some(path) => Some(error::ErrorView::Protocol("单文件分片清单过大: "@ + path)),
        None => None,
    }
}

fn close_page(request: &FrameHeader, id: &str, files: Vec<ManifestFile>, done: bool) -> (frame: Frame)
    ensures
        frame@ == page_frame(*request, id@, fields::views(files@), done),
{
    let page = SnapshotManifestPage { snapshot_id: id.to_owned(), files, done, error: String::new() };
    assert(page@ =~= (SnapshotManifestPageView {
        snapshot_id: id@,
        files: fields::views(files@),
        done,
        error: Seq::empty(),
    }));
    envelope_frame_with_flags(
        request,
        FrameType::Control,
        if done {
            0
        } else {
            FLAG_MORE
        },
        Payload::SnapshotManifestPage(page),
    )
}

/// The frames that send a snapshot. Where a file's description fits in no
/// page, the frames are those of the pages before it, and the error says so.
pub fn send_snapshot_pages(request: &FrameHeader, snapshot: &SnapshotRecord) -> (sent: (
    Vec<Frame>,
    Result<(), LanFlowError>,
))
    requires
        id_len(snapshot@.id) + PAGE_MARGIN <= usize::MAX - 2 * MAX_FRAME_SIZE,
    ensures
        fields::views(sent.0@) == snapshot_frames(*request, snapshot@),
        match snapshot_refusal(snapshot@) {
            Some(error) => sent.1 matches Err(e) && e@ == error,
            None => sent.1 is Ok,
        },
{
    let ghost all = manifests(snapshot@);
    let ghost idl = id_len(snapshot@.id);
    let id = snapshot.id.as_str();
    let base: usize = id.as_bytes().len() + PAGE_MARGIN;
    let mut frames: Vec<Frame> = Vec::new();
    let mut page: Vec<ManifestFile> = Vec::new();
    let mut size: usize = base;
    let mut i: usize = 0;
    proof {
        assert(fields::views(page@) =~= Seq::empty());
        assert(all.take(0) =~= Seq::empty());
        assert(fields::views(frames@) =~= full_page_frames(*request, snapshot@.id, Seq::empty()));
    }
    while i < snapshot.files.len()
        invariant
            i <= snapshot.files@.len(),
            id@ == snapshot@.id,
            all == manifests(snapshot@),
            idl == id_len(snapshot@.id),
            base == idl + PAGE_MARGIN,
            base <= usize::MAX - 2 * MAX_FRAME_SIZE,
            paging_of(all.take(i as int), idl).too_large is None,
            fields::views(page@) == paging_of(all.take(i as int), idl).open,
            size == paging_of(all.take(i as int), idl).size,
            fields::views(frames@) == full_page_frames(
                *request,
                snapshot@.id,
                paging_of(all.take(i as int), idl).full,
            ),
            size <= base + PAGE_TARGET,
        decreases snapshot.files@.len() - i,
    {
        let file = &snapshot.files[i].manifest;
        let ghost before = paging_of(all.take(i as int), idl);
        proof {
            assert(all[i as int] == file@);
            assert(all.take(i + 1).drop_last() =~= all.take(i as int));
            assert(all.take(i + 1).last() == file@);
        }
        let encoded: usize = message::encoded_len(file);
        if encoded > MAX_FRAME_SIZE {
            if page.len() > 0 {
                let frame = close_page(request, id, page, false);
                let ghost sent = frames@;
                frames.push(frame);
                assert(fields::views(frames@) =~= fields::views(sent).push(frame@));
                assert(fields::views(frames@) =~= full_page_frames(
                    *request,
                    snapshot@.id,
                    before.full.push(before.open),
                ));
            }
            proof {
                lemma_too_large_stays(all, idl, i + 1);
            }
            return (frames, Err(oversized(file.relative_path.as_str())));
        }
        let file_size: usize = encoded + FILE_MARGIN;
        if page.len() > 0 && size + file_size > PAGE_TARGET {
            let frame = close_page(request, id, page, false);
            let ghost sent = frames@;
            frames.push(frame);
            assert(fields::views(frames@) =~= fields::views(sent).push(frame@));
            assert(fields::views(frames@) =~= full_page_frames(
                *request,
                snapshot@.id,
                before.full.push(before.open),
            ));
            page = Vec::new();
            assert(fields::views(page@) =~= Seq::empty());
            size = base;
        }
        if file_size > MAX_FRAME_SIZE / 2 {
            proof {
                lemma_too_large_stays(all, idl, i + 1);
            }
            return (frames, Err(oversized(file.relative_path.as_str())));
        }
        size = size + file_size;
        let ghost filled = page@;
        let copy = file.clone();
        page.push(copy);
        assert(fields::views(page@) =~= fields::views(filled).push(copy@));
        i += 1;
    }
    assert(all.take(i as int) =~= all);
    let ghost open = fields::views(page@);
    let frame = close_page(request, id, page, true);
    let ghost sent = frames@;
    frames.push(frame);
    assert(fields::views(frames@) =~= fields::views(sent).push(frame@));
    (frames, Ok(()))
}

fn oversized(path: &str) -> (refusal: LanFlowError)
    ensures
        refusal@ == error::ErrorView::Protocol("单文件分片清单过大: "@ + path@),
{
    LanFlowError::Protocol(text::joined("单文件分片清单过大: ", path))
}

/// Once a file fits in no page, nothing that follows changes the pages.
proof fn lemma_too_large_stays(files: Seq<ManifestFileView>, idl: nat, n: int)
    requires
        0 <= n <= files.len(),
        paging_of(files.take(n), idl).too_large is Some,
    ensures
        paging_of(files, idl) == paging_of(files.take(n), idl),
    decreases files.len() - n,
{
    if n < files.len() {
        assert(files.take(n + 1).drop_last() =~= files.take(n));
        lemma_too_large_stays(files, idl, n + 1);
    } else {
        assert(files.take(n) =~= files);
    }
}

// ---------------------------------------------------------------------------
// Laws
// ---------------------------------------------------------------------------

/// Pages one after the other.
pub open spec fn flattened(pages: Seq<Seq<ManifestFileView>>) -> Seq<ManifestFileView>
    decreases pages.len(),
{
    if pages.len() == 0 {
        Seq::empty()
    } else {
        flattened(pages.drop_last()) + pages.last()
    }
}

/// The pages of a snapshot that can be sent hold all its files, in order and
/// once each.
pub proof fn law_pages_hold_all_files(files: Seq<ManifestFileView>, id_len: nat)
    requires
        paging_of(files, id_len).too_large is None,
    ensures
        flattened(paging_of(files, id_len).full) + paging_of(files, id_len).open == files,
    decreases files.len(),
{
    if files.len() == 0 {
        assert(flattened(paging_of(files, id_len).full) + paging_of(files, id_len).open =~= files);
    } else {
        law_pages_hold_all_files(files.drop_last(), id_len);
        let before = paging_of(files.drop_last(), id_len);
        let after = paging_of(files, id_len);
        let file = files.last();
        assert(files =~= files.drop_last().push(file));
        if before.open.len() > 0 && before.size + counted(file) > PAGE_TARGET {
            assert(after.full == before.full.push(before.open));
            assert(after.full.drop_last() =~= before.full);
            assert(after.full.last() == before.open);
            assert(after.open =~= seq![file]);
            assert(flattened(after.full) + after.open =~= (flattened(before.full)
                + before.open).push(file));
        } else {
            assert(flattened(after.full) + after.open =~= (flattened(before.full)
                + before.open).push(file));
        }
    }
}

/// The size that is counted for files together.
spec fn counted_all(files: Seq<ManifestFileView>) -> nat
    decreases files.len(),
{
    if files.len() == 0 {
        0
    } else {
        counted_all(files.drop_last()) + counted(files.last())
    }
}

spec fn small_page(files: Seq<ManifestFileView>) -> bool {
    &&& counted_all(files) <= PAGE_TARGET
    &&& forall|i: int| 0 <= i < files.len() ==> counted(#[trigger] files[i]) <= MAX_FRAME_SIZE / 2
}

proof fn lemma_pages_small(files: Seq<ManifestFileView>, id_len: nat)
    ensures
        ({
            let paging = paging_of(files, id_len);
            &&& small_page(paging.open)
            &&& paging.size == id_len + PAGE_MARGIN + counted_all(paging.open)
            &&& forall|i: int|
                0 <= i < paging.full.len() ==> small_page(#[trigger] paging.full[i])
        }),
    decreases files.len(),
{
    if files.len() > 0 {
        lemma_pages_small(files.drop_last(), id_len);
        let before = paging_of(files.drop_last(), id_len);
        let after = paging_of(files, id_len);
        let file = files.last();
        if before.too_large is None {
            let turns = before.open.len() > 0 && before.size + counted(file) > PAGE_TARGET;
            let full = if turns {
                before.full.push(before.open)
            } else {
                before.full
            };
            let open = if turns {
                Seq::empty()
            } else {
                before.open
            };
            assert(after.full == full);
            assert forall|i: int| 0 <= i < full.len() implies small_page(
                #[trigger] full[i],
            ) by {
                if i < before.full.len() {
                    assert(full[i] == before.full[i]);
                }
            }
            assert(small_page(open));
            if after.too_large is None {
                assert(after.open == open.push(file));
                assert(after.open.drop_last() =~= open);
                assert forall|i: int| 0 <= i < after.open.len() implies counted(
                    #[trigger] after.open[i],
                ) <= MAX_FRAME_SIZE / 2 by {
                    if i < open.len() {
                        assert(after.open[i] == open[i]);
                    }
                }
                if open.len() == 0 {
                    assert(counted_all(open) == 0);
                }
                assert(small_page(after.open));
            } else {
                assert(after.open == open);
            }
        }
    }
}

proof fn lemma_varint_bound(n: nat, digits: nat)
    requires
        digits >= 1,
        n < limit(digits),
    ensures
        protobuf::varint(n).len() <= digits,
    decreases digits,
{
    reveal_with_fuel(limit, 2);
    if n >= 128 {
        lemma_varint_bound(n / 128, (digits - 1) as nat);
    }
}

spec fn limit(digits: nat) -> nat
    decreases digits,
{
    if digits == 0 {
        1
    } else {
        128 * limit((digits - 1) as nat)
    }
}

/// The bytes of a list of files are no more than what is counted for them.
proof fn lemma_list_len(files: Seq<ManifestFileView>)
    requires
        forall|i: int| 0 <= i < files.len() ==> counted(#[trigger] files[i]) <= MAX_FRAME_SIZE / 2,
    ensures
        fields::message_bytes(fields::repeated_fields(2, message::encoded_all(files))).len()
            <= counted_all(files),
    decreases files.len(),
{
    let group = fields::repeated_fields(2, message::encoded_all(files));
    if files.len() == 0 {
        assert(group =~= Seq::empty());
    } else {
        let shorter = files.drop_last();
        assert forall|i: int| 0 <= i < shorter.len() implies counted(#[trigger] shorter[i])
            <= MAX_FRAME_SIZE / 2 by {
            assert(shorter[i] == files[i]);
        }
        lemma_list_len(shorter);
        let last = Field {
            tag: 2,
            value: FieldValue::Bytes(message::encoded(files.last())),
        };
        assert(group =~= fields::repeated_fields(2, message::encoded_all(shorter)) + seq![last]);
        fields::lemma_message_concat(
            fields::repeated_fields(2, message::encoded_all(shorter)),
            seq![last],
        );
        fields::lemma_message_single(last);
        reveal_with_fuel(limit, 4);
        assert(counted(files[files.len() - 1]) <= MAX_FRAME_SIZE / 2);
        lemma_varint_bound(message::encoded(files.last()).len(), 3);
        lemma_varint_bound(fields::key(2, 2), 1);
    }
}

proof fn lemma_page_body(id: Seq<char>, files: Seq<ManifestFileView>, done: bool)
    requires
        id_len(id) + PAGE_MARGIN + PAGE_TARGET <= MAX_FRAME_SIZE,
        small_page(files),
    ensures
        message::encoded(EnvelopeView { payload: Some(page_message(id, files, done)) }).len()
            <= MAX_FRAME_SIZE,
{
    let page = SnapshotManifestPageView { snapshot_id: id, files, done, error: Seq::empty() };
    let g1 = fields::text_field(1, id);
    let g2 = fields::repeated_fields(2, message::encoded_all(files));
    let g3 = fields::flag_field(3, done);
    let g4 = fields::text_field(4, Seq::empty());
    reveal_with_fuel(limit, 6);
    text::lemma_empty_text(Seq::<char>::empty());
    assert(g4 =~= Seq::empty());
    assert(page.fields() =~= g1 + g2 + g3);
    fields::lemma_message_concat(g1 + g2, g3);
    fields::lemma_message_concat(g1, g2);
    lemma_list_len(files);
    let data = utf8::encode_utf8(id);
    if data.len() > 0 {
        fields::lemma_message_single(Field { tag: 1, value: FieldValue::Bytes(data) });
        lemma_varint_bound(data.len(), 3);
        lemma_varint_bound(fields::key(1, 2), 1);
    }
    if done {
        fields::lemma_message_single(Field { tag: 3, value: FieldValue::Number(1) });
        lemma_varint_bound(1, 1);
        lemma_varint_bound(fields::key(3, 0), 1);
    }
    let body = message::encoded(page);
    assert(body.len() <= id_len(id) + 4 + counted_all(files) + 2);
    let payload = page_message(id, files, done);
    fields::lemma_message_single(Field { tag: payload.tag(), value: FieldValue::Bytes(body) });
    lemma_varint_bound(body.len(), 3);
    lemma_varint_bound(fields::key(payload.tag(), 2), 1);
}

/// Every frame that sends a snapshot fits in the limit for frame bodies, as
/// long as the snapshot's identity leaves room for a page.
pub proof fn law_pages_fit(request: FrameHeader, snapshot: SnapshotView)
    requires
        id_len(snapshot.id) + PAGE_MARGIN + PAGE_TARGET <= MAX_FRAME_SIZE,
    ensures
        forall|i: int|
            0 <= i < snapshot_frames(request, snapshot).len() ==> (#[trigger] snapshot_frames(
                request,
                snapshot,
            )[i]).body.len() <= MAX_FRAME_SIZE,
{
    let idl = id_len(snapshot.id);
    let paging = paging_of(manifests(snapshot), idl);
    let frames = snapshot_frames(request, snapshot);
    lemma_pages_small(manifests(snapshot), idl);
    assert forall|i: int| 0 <= i < frames.len() implies (#[trigger] frames[i]).body.len()
        <= MAX_FRAME_SIZE by {
        if i < paging.full.len() {
            lemma_page_body(snapshot.id, paging.full[i], false);
            assert(frames[i] == page_frame(request, snapshot.id, paging.full[i], false));
        } else {
            lemma_page_body(snapshot.id, paging.open, true);
        }
    }
}

/// All frames of a snapshot but the last say that more follow, and a snapshot
/// that is sent whole ends with one that says so.
pub proof fn law_only_last_page_is_final(request: FrameHeader, snapshot: SnapshotView)
    ensures
        ({
            let frames = snapshot_frames(request, snapshot);
            &&& forall|i: int|
                0 <= i < frames.len() - 1 ==> (#[trigger] frames[i]).header.flags == FLAG_MORE
            &&& snapshot_refusal(snapshot) is None ==> frames.len() > 0 && frames.last().header.flags
                == 0
            &&& snapshot_refusal(snapshot) is Some ==> forall|i: int|
                0 <= i < frames.len() ==> (#[trigger] frames[i]).header.flags == FLAG_MORE
        }),
{
}

proof fn lemma_too_large(files: Seq<ManifestFileView>, id_len: nat)
    ensures
        match paging_of(files, id_len).too_large {
            Some(path) => exists|i: int|
                0 <= i < files.len() && counted(#[trigger] files[i]) > MAX_FRAME_SIZE / 2 && path
                    == files[i].relative_path && forall|j: int|
                    0 <= j < i ==> counted(#[trigger] files[j]) <= MAX_FRAME_SIZE / 2,
            None => forall|i: int|
                0 <= i < files.len() ==> counted(#[trigger] files[i]) <= MAX_FRAME_SIZE / 2,
        },
    decreases files.len(),
{
    if files.len() > 0 {
        let before = files.drop_last();
        lemma_too_large(before, id_len);
        assert(forall|i: int| 0 <= i < before.len() ==> before[i] == #[trigger] files[i]);
        assert(files[files.len() - 1] == files.last());
        match paging_of(before, id_len).too_large {
            Some(path) => {
                let i = choose|i: int|
                    0 <= i < before.len() && counted(#[trigger] before[i]) > MAX_FRAME_SIZE / 2
                        && path == before[i].relative_path && forall|j: int|
                        0 <= j < i ==> counted(#[trigger] before[j]) <= MAX_FRAME_SIZE / 2;
                assert(counted(files[i]) > MAX_FRAME_SIZE / 2);
                assert forall|j: int| 0 <= j < i implies counted(#[trigger] files[j])
                    <= MAX_FRAME_SIZE / 2 by {
                    assert(counted(before[j]) <= MAX_FRAME_SIZE / 2);
                }
            },
            None => {
                assert forall|j: int| 0 <= j < before.len() implies counted(#[trigger] files[j])
                    <= MAX_FRAME_SIZE / 2 by {
                    assert(counted(before[j]) <= MAX_FRAME_SIZE / 2);
                }
            },
        }
    }
}

/// A snapshot is refused exactly where what is to be told of one of its files
/// takes more than half a frame, and the refusal names the first such file.
pub proof fn law_only_large_files_stop_a_snapshot(snapshot: SnapshotView, i: int)
    requires
        0 <= i < snapshot.files.len(),
        forall|j: int|
            0 <= j < i ==> message::encoded((#[trigger] snapshot.files[j]).manifest).len() + 8
                <= 512 * 1024,
    ensures
        message::encoded(snapshot.files[i].manifest).len() + 8 > 512 * 1024 ==> snapshot_refusal(
            snapshot,
        ) == Some(
            error::ErrorView::Protocol(
                "单文件分片清单过大: "@ + snapshot.files[i].manifest.relative_path,
            ),
        ),
        i == snapshot.files.len() - 1 && message::encoded(snapshot.files[i].manifest).len() + 8
            <= 512 * 1024 ==> snapshot_refusal(snapshot) is None,
{
    let files = manifests(snapshot);
    lemma_too_large(files, id_len(snapshot.id));
    assert forall|j: int| 0 <= j < i implies counted(#[trigger] files[j]) <= MAX_FRAME_SIZE
        / 2 by {
        assert(files[j] == snapshot.files[j].manifest);
    }
    assert(files[i] == snapshot.files[i].manifest);
    if let Some(path) = paging_of(files, id_len(snapshot.id)).too_large {
        let k = choose|k: int|
            0 <= k < files.len() && counted(#[trigger] files[k]) > MAX_FRAME_SIZE / 2 && path
                == files[k].relative_path && forall|j: int|
                0 <= j < k ==> counted(#[trigger] files[j]) <= MAX_FRAME_SIZE / 2;
        if k < i {
            assert(counted(files[k]) <= MAX_FRAME_SIZE / 2);
        }
        if k > i && counted(files[i]) > MAX_FRAME_SIZE / 2 {
            assert(counted(files[i]) <= MAX_FRAME_SIZE / 2);
        }
    }
}

/// Whether a page could not have taken in the first file of the next one.
spec fn is_filled(id_len: nat, page: Seq<ManifestFileView>, next: Seq<ManifestFileView>) -> bool {
    page.len() > 0 && (next.len() > 0 ==> id_len + PAGE_MARGIN + counted_all(page) + counted(next[0])
        > PAGE_TARGET)
}

proof fn lemma_pages_filled(files: Seq<ManifestFileView>, id_len: nat)
    ensures
        ({
            let paging = paging_of(files, id_len);
            let n = paging.full.len();
            &&& forall|i: int|
                0 <= i < n - 1 ==> #[trigger] paging.full[i + 1].len() > 0 && is_filled(
                    id_len,
                    paging.full[i],
                    paging.full[i + 1],
                )
            &&& n > 0 ==> is_filled(id_len, paging.full[n - 1], paging.open)
            &&& n > 0 && paging.too_large is None ==> paging.open.len() > 0
            &&& files.len() > 0 && paging.too_large is None ==> paging.open.len() > 0
        }),
    decreases files.len(),
{
    if files.len() > 0 {
        let before = paging_of(files.drop_last(), id_len);
        let after = paging_of(files, id_len);
        lemma_pages_filled(files.drop_last(), id_len);
        lemma_pages_small(files.drop_last(), id_len);
        if before.too_large is None && after.full.len() == before.full.len() + 1 {
            assert forall|i: int| 0 <= i < after.full.len() - 1 implies #[trigger] after.full[i
                + 1].len() > 0 && is_filled(id_len, after.full[i], after.full[i + 1]) by {
                assert(after.full[i] == before.full[i]);
                if i + 1 < before.full.len() {
                    assert(after.full[i + 1] == before.full[i + 1]);
                }
            }
        }
    }
}

/// A page is closed only when the next file would make it too large, and no
/// page but that of an empty snapshot is empty: the files of two pages that
/// follow each other would not all have fitted in one.
pub proof fn law_pages_are_filled(files: Seq<ManifestFileView>, id_len: nat, i: int)
    requires
        paging_of(files, id_len).too_large is None,
        0 <= i < paging_of(files, id_len).full.len(),
    ensures
        ({
            let pages = paging_of(files, id_len).full.push(paging_of(files, id_len).open);
            &&& pages[i].len() > 0
            &&& pages[i + 1].len() > 0
            &&& id_len + PAGE_MARGIN + room_of(pages[i]) + message::encoded(pages[i + 1][0]).len()
                + FILE_MARGIN > PAGE_TARGET
        }),
{
    let paging = paging_of(files, id_len);
    lemma_pages_filled(files, id_len);
    lemma_room(paging.full[i]);
    let n = paging.full.len();
    if i < n - 1 {
        assert(paging.full[i + 1].len() > 0);
    }
}

/// The room that some files take in a page.
pub open spec fn room_of(files: Seq<ManifestFileView>) -> nat
    decreases files.len(),
{
    if files.len() == 0 {
        0
    } else {
        room_of(files.drop_last()) + message::encoded(files.last()).len() + FILE_MARGIN as nat
    }
}

proof fn lemma_room(files: Seq<ManifestFileView>)
    ensures
        room_of(files) == counted_all(files),
    decreases files.len(),
{
    if files.len() > 0 {
        lemma_room(files.drop_last());
    }
}

} // verus!
