//! The messages that describe snapshots.

use vstd::prelude::*;

use crate::fields;
use crate::fields::{Field, FieldValue, RawField};
use crate::message;
use crate::message::{Message, Model};

verus! {

/// Asks for a snapshot of some paths of a share.
#[derive(Debug)]
pub struct CreateSnapshotRequest {
    pub share_id: String,
    pub relative_paths: Vec<String>,
    pub chunk_size: u32,
}

/// The model of a [`CreateSnapshotRequest`].
#[verifier::ext_equal]
pub struct CreateSnapshotRequestView {
    pub share_id: Seq<char>,
    pub relative_paths: Seq<Seq<char>>,
    pub chunk_size: u32,
}

impl View for CreateSnapshotRequest {
    type V = CreateSnapshotRequestView;

    open spec fn view(&self) -> CreateSnapshotRequestView {
        CreateSnapshotRequestView {
            share_id: self.share_id@,
            relative_paths: fields::views(self.relative_paths@),
            chunk_size: self.chunk_size,
        }
    }
}

impl CreateSnapshotRequestView {
    /// The message once one more field was read.
    pub open spec fn step(self, field: Field) -> Option<CreateSnapshotRequestView> {
        if field.tag == 1 {
            match fields::text_value(field.value) {
                Some(x) => Some((CreateSnapshotRequestView { share_id: x, ..self })),
                None => None,
            }
        } else if field.tag == 2 {
            match fields::text_value(field.value) {
                Some(x) => Some((CreateSnapshotRequestView { relative_paths: self.relative_paths.push(x), ..self })),
                None => None,
            }
        } else if field.tag == 3 {
            match fields::number_value(field.value) {
                Some(x) => Some((CreateSnapshotRequestView { chunk_size: x as u32, ..self })),
                None => None,
            }
        } else {
            Some(self)
        }
    }
}

impl CreateSnapshotRequestView {
    proof fn lemma_relative_paths_merged(self, items: Seq<Seq<char>>)
        ensures
            fields::merged(
                CreateSnapshotRequestView::stepper(),
                self,
                fields::repeated_fields(2, fields::text_bytes(items)),
            ) == Some((CreateSnapshotRequestView { relative_paths: self.relative_paths + items, ..self })),
        decreases items.len(),
    {
        let group = fields::repeated_fields(2, fields::text_bytes(items));
        if items.len() == 0 {
            assert(self.relative_paths + items =~= self.relative_paths);
            assert(group =~= Seq::empty());
        } else {
            vstd::utf8::encode_utf8_valid_utf8(items[0]);
            vstd::utf8::encode_utf8_decode_utf8(items[0]);
            let next = CreateSnapshotRequestView { relative_paths: self.relative_paths.push(items[0]), ..self };
            assert(group[0] == (Field { tag: 2, value: FieldValue::Bytes(vstd::utf8::encode_utf8(items[0])) }));
            assert(self.step(group[0]) == Some(next));
            assert(group.skip(1) =~= fields::repeated_fields(2, fields::text_bytes(items.skip(1))));
            next.lemma_relative_paths_merged(items.skip(1));
            assert(next.relative_paths + items.skip(1) =~= self.relative_paths + items);
        }
    }
}

impl Model for CreateSnapshotRequestView {
    open spec fn depth() -> nat {
        1
    }

    open spec fn empty() -> CreateSnapshotRequestView {
        CreateSnapshotRequestView {
            share_id: Seq::empty(),
            relative_paths: Seq::empty(),
            chunk_size: 0,
        }
    }

    open spec fn fields(self) -> Seq<Field> {
        fields::text_field(1, self.share_id)
            + fields::repeated_fields(2, fields::text_bytes(self.relative_paths))
            + fields::number_field(3, self.chunk_size as u64)
    }

    open spec fn stepper() -> spec_fn(CreateSnapshotRequestView, Field) -> Option<CreateSnapshotRequestView> {
        |message: CreateSnapshotRequestView, field: Field| message.step(field)
    }

    proof fn lemma_plain(self) {
        let g1 = fields::text_field(1, self.share_id);
        let p1 = g1;
        let g2 = fields::repeated_fields(2, fields::text_bytes(self.relative_paths));
        let p2 = p1 + g2;
        fields::lemma_plain_concat(p1, g2);
        let g3 = fields::number_field(3, self.chunk_size as u64);
        let p3 = p2 + g3;
        fields::lemma_plain_concat(p2, g3);
    }

    proof fn lemma_merged(self) {
        let step = CreateSnapshotRequestView::stepper();
        let s0 = CreateSnapshotRequestView::empty();
        let g1 = fields::text_field(1, self.share_id);
        let s1 = CreateSnapshotRequestView { share_id: self.share_id, ..s0 };
        fields::lemma_text_field(1, self.share_id);
        fields::lemma_merged_small(step, s0, g1);
        assert(fields::merged(step, s0, g1) == Some(s1));
        let p1 = g1;
        let g2 = fields::repeated_fields(2, fields::text_bytes(self.relative_paths));
        let s2 = CreateSnapshotRequestView { relative_paths: self.relative_paths, ..s1 };
        s1.lemma_relative_paths_merged(self.relative_paths);
        assert(s1.relative_paths + self.relative_paths =~= self.relative_paths);
        assert(fields::merged(step, s1, g2) == Some(s2));
        let p2 = p1 + g2;
        fields::lemma_merged_concat(step, s0, p1, g2);
        let g3 = fields::number_field(3, self.chunk_size as u64);
        let s3 = CreateSnapshotRequestView { chunk_size: self.chunk_size, ..s2 };
        fields::lemma_merged_small(step, s2, g3);
        assert(fields::merged(step, s2, g3) == Some(s3));
        let p3 = p2 + g3;
        fields::lemma_merged_concat(step, s0, p2, g3);
        assert(s3 =~= self);
    }
}

impl Message for CreateSnapshotRequest {
    fn depth() -> (depth: usize) {
        1
    }

    fn empty() -> (message: CreateSnapshotRequest) {
        let message = CreateSnapshotRequest {
            share_id: String::new(),
            relative_paths: Vec::new(),
            chunk_size: 0,
        };
        assert(message@ =~= CreateSnapshotRequestView::empty());
        message
    }

    fn encode_raw(&self, buf: &mut Vec<u8>) {
        let ghost start = buf@;
        fields::put_text(buf, 1, self.share_id.as_str());
        let ghost g1 = fields::text_field(1, self@.share_id);
        let ghost p1 = g1;
        fields::put_texts(buf, 2, &self.relative_paths);
        let ghost g2 = fields::repeated_fields(2, fields::text_bytes(self@.relative_paths));
        let ghost p2 = p1 + g2;
        proof {
            fields::lemma_append(start, p1, g2);
        }
        fields::put_number(buf, 3, self.chunk_size as u64);
        let ghost g3 = fields::number_field(3, self@.chunk_size as u64);
        let ghost p3 = p2 + g3;
        proof {
            fields::lemma_append(start, p2, g3);
        }
    }

    fn merge_field(&mut self, field: &RawField) -> (ok: bool) {
        let ghost before = self@;
        match field.tag {
            1 => match fields::read_text(&field.value) {
                Some(x) => {
                    self.share_id = x;
                },
                None => {
                    return false;
                },
            },
            2 => match fields::read_text(&field.value) {
                Some(x) => {
                    self.relative_paths.push(x);
                    assert(self@.relative_paths =~= before.relative_paths.push(x@));
                },
                None => {
                    return false;
                },
            },
            3 => match fields::read_number(&field.value) {
                Some(x) => {
                    self.chunk_size = #[verifier::truncate] (x as u32);
                },
                None => {
                    return false;
                },
            },
            _ => {},
        }
        true
    }
}

/// How far a snapshot has come.
#[derive(Debug)]
pub struct SnapshotProgress {
    pub snapshot_id: String,
    pub phase: String,
    pub scanned_entries: u64,
    pub total_entries: u64,
    pub prepared_bytes: u64,
    pub total_bytes: u64,
    pub cache_hits: u64,
    pub current_path: String,
    pub hash_workers: u32,
    pub speed_bps: u64,
}

/// The model of a [`SnapshotProgress`].
#[verifier::ext_equal]
pub struct SnapshotProgressView {
    pub snapshot_id: Seq<char>,
    pub phase: Seq<char>,
    pub scanned_entries: u64,
    pub total_entries: u64,
    pub prepared_bytes: u64,
    pub total_bytes: u64,
    pub cache_hits: u64,
    pub current_path: Seq<char>,
    pub hash_workers: u32,
    pub speed_bps: u64,
}

impl View for SnapshotProgress {
    type V = SnapshotProgressView;

    open spec fn view(&self) -> SnapshotProgressView {
        SnapshotProgressView {
            snapshot_id: self.snapshot_id@,
            phase: self.phase@,
            scanned_entries: self.scanned_entries,
            total_entries: self.total_entries,
            prepared_bytes: self.prepared_bytes,
            total_bytes: self.total_bytes,
            cache_hits: self.cache_hits,
            current_path: self.current_path@,
            hash_workers: self.hash_workers,
            speed_bps: self.speed_bps,
        }
    }
}

impl SnapshotProgressView {
    /// The message once one more field was read.
    pub open spec fn step(self, field: Field) -> Option<SnapshotProgressView> {
        if field.tag == 1 {
            match fields::text_value(field.value) {
                Some(x) => Some((SnapshotProgressView { snapshot_id: x, ..self })),
                None => None,
            }
        } else if field.tag == 2 {
            match fields::text_value(field.value) {
                Some(x) => Some((SnapshotProgressView { phase: x, ..self })),
                None => None,
            }
        } else if field.tag == 3 {
            match fields::number_value(field.value) {
                Some(x) => Some((SnapshotProgressView { scanned_entries: x, ..self })),
                None => None,
            }
        } else if field.tag == 4 {
            match fields::number_value(field.value) {
                Some(x) => Some((SnapshotProgressView { total_entries: x, ..self })),
                None => None,
            }
        } else if field.tag == 5 {
            match fields::number_value(field.value) {
                Some(x) => Some((SnapshotProgressView { prepared_bytes: x, ..self })),
                None => None,
            }
        } else if field.tag == 6 {
            match fields::number_value(field.value) {
                Some(x) => Some((SnapshotProgressView { total_bytes: x, ..self })),
                None => None,
            }
        } else if field.tag == 7 {
            match fields::number_value(field.value) {
                Some(x) => Some((SnapshotProgressView { cache_hits: x, ..self })),
                None => None,
            }
        } else if field.tag == 8 {
            match fields::text_value(field.value) {
                Some(x) => Some((SnapshotProgressView { current_path: x, ..self })),
                None => None,
            }
        } else if field.tag == 9 {
            match fields::number_value(field.value) {
                Some(x) => Some((SnapshotProgressView { hash_workers: x as u32, ..self })),
                None => None,
            }
        } else if field.tag == 10 {
            match fields::number_value(field.value) {
                Some(x) => Some((SnapshotProgressView { speed_bps: x, ..self })),
                None => None,
            }
        } else {
            Some(self)
        }
    }
}

impl Model for SnapshotProgressView {
    open spec fn depth() -> nat {
        1
    }

    open spec fn empty() -> SnapshotProgressView {
        SnapshotProgressView {
            snapshot_id: Seq::empty(),
            phase: Seq::empty(),
            scanned_entries: 0,
            total_entries: 0,
            prepared_bytes: 0,
            total_bytes: 0,
            cache_hits: 0,
            current_path: Seq::empty(),
            hash_workers: 0,
            speed_bps: 0,
        }
    }

    open spec fn fields(self) -> Seq<Field> {
        fields::text_field(1, self.snapshot_id)
            + fields::text_field(2, self.phase)
            + fields::number_field(3, self.scanned_entries)
            + fields::number_field(4, self.total_entries)
            + fields::number_field(5, self.prepared_bytes)
            + fields::number_field(6, self.total_bytes)
            + fields::number_field(7, self.cache_hits)
            + fields::text_field(8, self.current_path)
            + fields::number_field(9, self.hash_workers as u64)
            + fields::number_field(10, self.speed_bps)
    }

    open spec fn stepper() -> spec_fn(SnapshotProgressView, Field) -> Option<SnapshotProgressView> {
        |message: SnapshotProgressView, field: Field| message.step(field)
    }

    proof fn lemma_plain(self) {
        let g1 = fields::text_field(1, self.snapshot_id);
        let p1 = g1;
        let g2 = fields::text_field(2, self.phase);
        let p2 = p1 + g2;
        fields::lemma_plain_concat(p1, g2);
        let g3 = fields::number_field(3, self.scanned_entries);
        let p3 = p2 + g3;
        fields::lemma_plain_concat(p2, g3);
        let g4 = fields::number_field(4, self.total_entries);
        let p4 = p3 + g4;
        fields::lemma_plain_concat(p3, g4);
        let g5 = fields::number_field(5, self.prepared_bytes);
        let p5 = p4 + g5;
        fields::lemma_plain_concat(p4, g5);
        let g6 = fields::number_field(6, self.total_bytes);
        let p6 = p5 + g6;
        fields::lemma_plain_concat(p5, g6);
        let g7 = fields::number_field(7, self.cache_hits);
        let p7 = p6 + g7;
        fields::lemma_plain_concat(p6, g7);
        let g8 = fields::text_field(8, self.current_path);
        let p8 = p7 + g8;
        fields::lemma_plain_concat(p7, g8);
        let g9 = fields::number_field(9, self.hash_workers as u64);
        let p9 = p8 + g9;
        fields::lemma_plain_concat(p8, g9);
        let g10 = fields::number_field(10, self.speed_bps);
        let p10 = p9 + g10;
        fields::lemma_plain_concat(p9, g10);
    }

    proof fn lemma_merged(self) {
        let step = SnapshotProgressView::stepper();
        let s0 = SnapshotProgressView::empty();
        let g1 = fields::text_field(1, self.snapshot_id);
        let s1 = SnapshotProgressView { snapshot_id: self.snapshot_id, ..s0 };
        fields::lemma_text_field(1, self.snapshot_id);
        fields::lemma_merged_small(step, s0, g1);
        assert(fields::merged(step, s0, g1) == Some(s1));
        let p1 = g1;
        let g2 = fields::text_field(2, self.phase);
        let s2 = SnapshotProgressView { phase: self.phase, ..s1 };
        fields::lemma_text_field(2, self.phase);
        fields::lemma_merged_small(step, s1, g2);
        assert(fields::merged(step, s1, g2) == Some(s2));
        let p2 = p1 + g2;
        fields::lemma_merged_concat(step, s0, p1, g2);
        let g3 = fields::number_field(3, self.scanned_entries);
        let s3 = SnapshotProgressView { scanned_entries: self.scanned_entries, ..s2 };
        fields::lemma_merged_small(step, s2, g3);
        assert(fields::merged(step, s2, g3) == Some(s3));
        let p3 = p2 + g3;
        fields::lemma_merged_concat(step, s0, p2, g3);
        let g4 = fields::number_field(4, self.total_entries);
        let s4 = SnapshotProgressView { total_entries: self.total_entries, ..s3 };
        fields::lemma_merged_small(step, s3, g4);
        assert(fields::merged(step, s3, g4) == Some(s4));
        let p4 = p3 + g4;
        fields::lemma_merged_concat(step, s0, p3, g4);
        let g5 = fields::number_field(5, self.prepared_bytes);
        let s5 = SnapshotProgressView { prepared_bytes: self.prepared_bytes, ..s4 };
        fields::lemma_merged_small(step, s4, g5);
        assert(fields::merged(step, s4, g5) == Some(s5));
        let p5 = p4 + g5;
        fields::lemma_merged_concat(step, s0, p4, g5);
        let g6 = fields::number_field(6, self.total_bytes);
        let s6 = SnapshotProgressView { total_bytes: self.total_bytes, ..s5 };
        fields::lemma_merged_small(step, s5, g6);
        assert(fields::merged(step, s5, g6) == Some(s6));
        let p6 = p5 + g6;
        fields::lemma_merged_concat(step, s0, p5, g6);
        let g7 = fields::number_field(7, self.cache_hits);
        let s7 = SnapshotProgressView { cache_hits: self.cache_hits, ..s6 };
        fields::lemma_merged_small(step, s6, g7);
        assert(fields::merged(step, s6, g7) == Some(s7));
        let p7 = p6 + g7;
        fields::lemma_merged_concat(step, s0, p6, g7);
        let g8 = fields::text_field(8, self.current_path);
        let s8 = SnapshotProgressView { current_path: self.current_path, ..s7 };
        fields::lemma_text_field(8, self.current_path);
        fields::lemma_merged_small(step, s7, g8);
        assert(fields::merged(step, s7, g8) == Some(s8));
        let p8 = p7 + g8;
        fields::lemma_merged_concat(step, s0, p7, g8);
        let g9 = fields::number_field(9, self.hash_workers as u64);
        let s9 = SnapshotProgressView { hash_workers: self.hash_workers, ..s8 };
        fields::lemma_merged_small(step, s8, g9);
        assert(fields::merged(step, s8, g9) == Some(s9));
        let p9 = p8 + g9;
        fields::lemma_merged_concat(step, s0, p8, g9);
        let g10 = fields::number_field(10, self.speed_bps);
        let s10 = SnapshotProgressView { speed_bps: self.speed_bps, ..s9 };
        fields::lemma_merged_small(step, s9, g10);
        assert(fields::merged(step, s9, g10) == Some(s10));
        let p10 = p9 + g10;
        fields::lemma_merged_concat(step, s0, p9, g10);
        assert(s10 =~= self);
    }
}

impl Message for SnapshotProgress {
    fn depth() -> (depth: usize) {
        1
    }

    fn empty() -> (message: SnapshotProgress) {
        let message = SnapshotProgress {
            snapshot_id: String::new(),
            phase: String::new(),
            scanned_entries: 0,
            total_entries: 0,
            prepared_bytes: 0,
            total_bytes: 0,
            cache_hits: 0,
            current_path: String::new(),
            hash_workers: 0,
            speed_bps: 0,
        };
        assert(message@ =~= SnapshotProgressView::empty());
        message
    }

    fn encode_raw(&self, buf: &mut Vec<u8>) {
        let ghost start = buf@;
        fields::put_text(buf, 1, self.snapshot_id.as_str());
        let ghost g1 = fields::text_field(1, self@.snapshot_id);
        let ghost p1 = g1;
        fields::put_text(buf, 2, self.phase.as_str());
        let ghost g2 = fields::text_field(2, self@.phase);
        let ghost p2 = p1 + g2;
        proof {
            fields::lemma_append(start, p1, g2);
        }
        fields::put_number(buf, 3, self.scanned_entries);
        let ghost g3 = fields::number_field(3, self@.scanned_entries);
        let ghost p3 = p2 + g3;
        proof {
            fields::lemma_append(start, p2, g3);
        }
        fields::put_number(buf, 4, self.total_entries);
        let ghost g4 = fields::number_field(4, self@.total_entries);
        let ghost p4 = p3 + g4;
        proof {
            fields::lemma_append(start, p3, g4);
        }
        fields::put_number(buf, 5, self.prepared_bytes);
        let ghost g5 = fields::number_field(5, self@.prepared_bytes);
        let ghost p5 = p4 + g5;
        proof {
            fields::lemma_append(start, p4, g5);
        }
        fields::put_number(buf, 6, self.total_bytes);
        let ghost g6 = fields::number_field(6, self@.total_bytes);
        let ghost p6 = p5 + g6;
        proof {
            fields::lemma_append(start, p5, g6);
        }
        fields::put_number(buf, 7, self.cache_hits);
        let ghost g7 = fields::number_field(7, self@.cache_hits);
        let ghost p7 = p6 + g7;
        proof {
            fields::lemma_append(start, p6, g7);
        }
        fields::put_text(buf, 8, self.current_path.as_str());
        let ghost g8 = fields::text_field(8, self@.current_path);
        let ghost p8 = p7 + g8;
        proof {
            fields::lemma_append(start, p7, g8);
        }
        fields::put_number(buf, 9, self.hash_workers as u64);
        let ghost g9 = fields::number_field(9, self@.hash_workers as u64);
        let ghost p9 = p8 + g9;
        proof {
            fields::lemma_append(start, p8, g9);
        }
        fields::put_number(buf, 10, self.speed_bps);
        let ghost g10 = fields::number_field(10, self@.speed_bps);
        let ghost p10 = p9 + g10;
        proof {
            fields::lemma_append(start, p9, g10);
        }
    }

    fn merge_field(&mut self, field: &RawField) -> (ok: bool) {
        match field.tag {
            1 => match fields::read_text(&field.value) {
                Some(x) => {
                    self.snapshot_id = x;
                },
                None => {
                    return false;
                },
            },
            2 => match fields::read_text(&field.value) {
                Some(x) => {
                    self.phase = x;
                },
                None => {
                    return false;
                },
            },
            3 => match fields::read_number(&field.value) {
                Some(x) => {
                    self.scanned_entries = x;
                },
                None => {
                    return false;
                },
            },
            4 => match fields::read_number(&field.value) {
                Some(x) => {
                    self.total_entries = x;
                },
                None => {
                    return false;
                },
            },
            5 => match fields::read_number(&field.value) {
                Some(x) => {
                    self.prepared_bytes = x;
                },
                None => {
                    return false;
                },
            },
            6 => match fields::read_number(&field.value) {
                Some(x) => {
                    self.total_bytes = x;
                },
                None => {
                    return false;
                },
            },
            7 => match fields::read_number(&field.value) {
                Some(x) => {
                    self.cache_hits = x;
                },
                None => {
                    return false;
                },
            },
            8 => match fields::read_text(&field.value) {
                Some(x) => {
                    self.current_path = x;
                },
                None => {
                    return false;
                },
            },
            9 => match fields::read_number(&field.value) {
                Some(x) => {
                    self.hash_workers = #[verifier::truncate] (x as u32);
                },
                None => {
                    return false;
                },
            },
            10 => match fields::read_number(&field.value) {
                Some(x) => {
                    self.speed_bps = x;
                },
                None => {
                    return false;
                },
            },
            _ => {},
        }
        true
    }
}

/// A part of a file and its hash.
#[derive(Debug)]
pub struct ChunkHash {
    pub index: u32,
    pub offset: u64,
    pub length: u32,
    pub blake3: Vec<u8>,
}

/// The model of a [`ChunkHash`].
#[verifier::ext_equal]
pub struct ChunkHashView {
    pub index: u32,
    pub offset: u64,
    pub length: u32,
    pub blake3: Seq<u8>,
}

impl View for ChunkHash {
    type V = ChunkHashView;

    open spec fn view(&self) -> ChunkHashView {
        ChunkHashView {
            index: self.index,
            offset: self.offset,
            length: self.length,
            blake3: self.blake3@,
        }
    }
}

impl ChunkHashView {
    /// The message once one more field was read.
    pub open spec fn step(self, field: Field) -> Option<ChunkHashView> {
        if field.tag == 1 {
            match fields::number_value(field.value) {
                Some(x) => Some((ChunkHashView { index: x as u32, ..self })),
                None => None,
            }
        } else if field.tag == 2 {
            match fields::number_value(field.value) {
                Some(x) => Some((ChunkHashView { offset: x, ..self })),
                None => None,
            }
        } else if field.tag == 3 {
            match fields::number_value(field.value) {
                Some(x) => Some((ChunkHashView { length: x as u32, ..self })),
                None => None,
            }
        } else if field.tag == 4 {
            match fields::bytes_value(field.value) {
                Some(x) => Some((ChunkHashView { blake3: x, ..self })),
                None => None,
            }
        } else {
            Some(self)
        }
    }
}

impl Model for ChunkHashView {
    open spec fn depth() -> nat {
        3
    }

    open spec fn empty() -> ChunkHashView {
        ChunkHashView {
            index: 0,
            offset: 0,
            length: 0,
            blake3: Seq::empty(),
        }
    }

    open spec fn fields(self) -> Seq<Field> {
        fields::number_field(1, self.index as u64)
            + fields::number_field(2, self.offset)
            + fields::number_field(3, self.length as u64)
            + fields::bytes_field(4, self.blake3)
    }

    open spec fn stepper() -> spec_fn(ChunkHashView, Field) -> Option<ChunkHashView> {
        |message: ChunkHashView, field: Field| message.step(field)
    }

    proof fn lemma_plain(self) {
        let g1 = fields::number_field(1, self.index as u64);
        let p1 = g1;
        let g2 = fields::number_field(2, self.offset);
        let p2 = p1 + g2;
        fields::lemma_plain_concat(p1, g2);
        let g3 = fields::number_field(3, self.length as u64);
        let p3 = p2 + g3;
        fields::lemma_plain_concat(p2, g3);
        let g4 = fields::bytes_field(4, self.blake3);
        let p4 = p3 + g4;
        fields::lemma_plain_concat(p3, g4);
    }

    proof fn lemma_merged(self) {
        let step = ChunkHashView::stepper();
        let s0 = ChunkHashView::empty();
        let g1 = fields::number_field(1, self.index as u64);
        let s1 = ChunkHashView { index: self.index, ..s0 };
        fields::lemma_merged_small(step, s0, g1);
        assert(fields::merged(step, s0, g1) == Some(s1));
        let p1 = g1;
        let g2 = fields::number_field(2, self.offset);
        let s2 = ChunkHashView { offset: self.offset, ..s1 };
        fields::lemma_merged_small(step, s1, g2);
        assert(fields::merged(step, s1, g2) == Some(s2));
        let p2 = p1 + g2;
        fields::lemma_merged_concat(step, s0, p1, g2);
        let g3 = fields::number_field(3, self.length as u64);
        let s3 = ChunkHashView { length: self.length, ..s2 };
        fields::lemma_merged_small(step, s2, g3);
        assert(fields::merged(step, s2, g3) == Some(s3));
        let p3 = p2 + g3;
        fields::lemma_merged_concat(step, s0, p2, g3);
        let g4 = fields::bytes_field(4, self.blake3);
        let s4 = ChunkHashView { blake3: self.blake3, ..s3 };
        fields::lemma_bytes_field(4, self.blake3);
        fields::lemma_merged_small(step, s3, g4);
        assert(fields::merged(step, s3, g4) == Some(s4));
        let p4 = p3 + g4;
        fields::lemma_merged_concat(step, s0, p3, g4);
        assert(s4 =~= self);
    }
}

impl Message for ChunkHash {
    fn depth() -> (depth: usize) {
        3
    }

    fn empty() -> (message: ChunkHash) {
        let message = ChunkHash {
            index: 0,
            offset: 0,
            length: 0,
            blake3: Vec::new(),
        };
        assert(message@ =~= ChunkHashView::empty());
        message
    }

    fn encode_raw(&self, buf: &mut Vec<u8>) {
        let ghost start = buf@;
        fields::put_number(buf, 1, self.index as u64);
        let ghost g1 = fields::number_field(1, self@.index as u64);
        let ghost p1 = g1;
        fields::put_number(buf, 2, self.offset);
        let ghost g2 = fields::number_field(2, self@.offset);
        let ghost p2 = p1 + g2;
        proof {
            fields::lemma_append(start, p1, g2);
        }
        fields::put_number(buf, 3, self.length as u64);
        let ghost g3 = fields::number_field(3, self@.length as u64);
        let ghost p3 = p2 + g3;
        proof {
            fields::lemma_append(start, p2, g3);
        }
        fields::put_bytes(buf, 4, self.blake3.as_slice());
        let ghost g4 = fields::bytes_field(4, self@.blake3);
        let ghost p4 = p3 + g4;
        proof {
            fields::lemma_append(start, p3, g4);
        }
    }

    fn merge_field(&mut self, field: &RawField) -> (ok: bool) {
        match field.tag {
            1 => match fields::read_number(&field.value) {
                Some(x) => {
                    self.index = #[verifier::truncate] (x as u32);
                },
                None => {
                    return false;
                },
            },
            2 => match fields::read_number(&field.value) {
                Some(x) => {
                    self.offset = x;
                },
                None => {
                    return false;
                },
            },
            3 => match fields::read_number(&field.value) {
                Some(x) => {
                    self.length = #[verifier::truncate] (x as u32);
                },
                None => {
                    return false;
                },
            },
            4 => match fields::read_bytes(&field.value) {
                Some(x) => {
                    self.blake3 = x;
                },
                None => {
                    return false;
                },
            },
            _ => {},
        }
        true
    }
}

impl Clone for ChunkHash {
    fn clone(&self) -> (copy: ChunkHash)
        ensures
            copy@ == self@,
    {
        let copy = ChunkHash {
            index: self.index,
            offset: self.offset,
            length: self.length,
            blake3: fields::copy_bytes(self.blake3.as_slice()),
        };
        assert(copy@ =~= self@);
        copy
    }
}

/// A file of a snapshot.
#[derive(Debug)]
pub struct ManifestFile {
    pub id: String,
    pub relative_path: String,
    pub size: u64,
    pub modified_ms: i64,
    pub blake3: Vec<u8>,
    pub chunks: Vec<ChunkHash>,
    pub is_dir: bool,
}

/// The model of a [`ManifestFile`].
#[verifier::ext_equal]
pub struct ManifestFileView {
    pub id: Seq<char>,
    pub relative_path: Seq<char>,
    pub size: u64,
    pub modified_ms: i64,
    pub blake3: Seq<u8>,
    pub chunks: Seq<ChunkHashView>,
    pub is_dir: bool,
}

impl View for ManifestFile {
    type V = ManifestFileView;

    open spec fn view(&self) -> ManifestFileView {
        ManifestFileView {
            id: self.id@,
            relative_path: self.relative_path@,
            size: self.size,
            modified_ms: self.modified_ms,
            blake3: self.blake3@,
            chunks: fields::views(self.chunks@),
            is_dir: self.is_dir,
        }
    }
}

impl ManifestFileView {
    /// The message once one more field was read.
    pub open spec fn step(self, field: Field) -> Option<ManifestFileView> {
        if field.tag == 1 {
            match fields::text_value(field.value) {
                Some(x) => Some((ManifestFileView { id: x, ..self })),
                None => None,
            }
        } else if field.tag == 2 {
            match fields::text_value(field.value) {
                Some(x) => Some((ManifestFileView { relative_path: x, ..self })),
                None => None,
            }
        } else if field.tag == 3 {
            match fields::number_value(field.value) {
                Some(x) => Some((ManifestFileView { size: x, ..self })),
                None => None,
            }
        } else if field.tag == 4 {
            match fields::number_value(field.value) {
                Some(x) => Some((ManifestFileView { modified_ms: x as i64, ..self })),
                None => None,
            }
        } else if field.tag == 5 {
            match fields::bytes_value(field.value) {
                Some(x) => Some((ManifestFileView { blake3: x, ..self })),
                None => None,
            }
        } else if field.tag == 6 {
            match message::element_value::<ChunkHashView>(field.value) {
                Some(x) => Some((ManifestFileView { chunks: self.chunks.push(x), ..self })),
                None => None,
            }
        } else if field.tag == 7 {
            match fields::number_value(field.value) {
                Some(x) => Some((ManifestFileView { is_dir: x != 0, ..self })),
                None => None,
            }
        } else {
            Some(self)
        }
    }
}

impl ManifestFileView {
    proof fn lemma_chunks_merged(self, items: Seq<ChunkHashView>)
        requires
            forall|i: int|
                0 <= i < items.len() ==> message::encoded(#[trigger] items[i]).len() <= u64::MAX,
        ensures
            fields::merged(
                ManifestFileView::stepper(),
                self,
                fields::repeated_fields(6, message::encoded_all(items)),
            ) == Some((ManifestFileView { chunks: self.chunks + items, ..self })),
        decreases items.len(),
    {
        let group = fields::repeated_fields(6, message::encoded_all(items));
        if items.len() == 0 {
            assert(self.chunks + items =~= self.chunks);
            assert(group =~= Seq::empty());
        } else {
            message::lemma_roundtrip(items[0]);
            let next = ManifestFileView { chunks: self.chunks.push(items[0]), ..self };
            assert(group[0] == (Field { tag: 6, value: FieldValue::Bytes(message::encoded(items[0])) }));
            assert(self.step(group[0]) == Some(next));
            assert(group.skip(1) =~= fields::repeated_fields(6, message::encoded_all(items.skip(1))));
            next.lemma_chunks_merged(items.skip(1));
            assert(next.chunks + items.skip(1) =~= self.chunks + items);
        }
    }
}

impl Model for ManifestFileView {
    open spec fn depth() -> nat {
        2
    }

    open spec fn empty() -> ManifestFileView {
        ManifestFileView {
            id: Seq::empty(),
            relative_path: Seq::empty(),
            size: 0,
            modified_ms: 0,
            blake3: Seq::empty(),
            chunks: Seq::empty(),
            is_dir: false,
        }
    }

    open spec fn fields(self) -> Seq<Field> {
        fields::text_field(1, self.id)
            + fields::text_field(2, self.relative_path)
            + fields::number_field(3, self.size)
            + fields::number_field(4, self.modified_ms as u64)
            + fields::bytes_field(5, self.blake3)
            + fields::repeated_fields(6, message::encoded_all(self.chunks))
            + fields::flag_field(7, self.is_dir)
    }

    open spec fn stepper() -> spec_fn(ManifestFileView, Field) -> Option<ManifestFileView> {
        |message: ManifestFileView, field: Field| message.step(field)
    }

    proof fn lemma_plain(self) {
        let g1 = fields::text_field(1, self.id);
        let p1 = g1;
        let g2 = fields::text_field(2, self.relative_path);
        let p2 = p1 + g2;
        fields::lemma_plain_concat(p1, g2);
        let g3 = fields::number_field(3, self.size);
        let p3 = p2 + g3;
        fields::lemma_plain_concat(p2, g3);
        let g4 = fields::number_field(4, self.modified_ms as u64);
        let p4 = p3 + g4;
        fields::lemma_plain_concat(p3, g4);
        let g5 = fields::bytes_field(5, self.blake3);
        let p5 = p4 + g5;
        fields::lemma_plain_concat(p4, g5);
        let g6 = fields::repeated_fields(6, message::encoded_all(self.chunks));
        let p6 = p5 + g6;
        fields::lemma_plain_concat(p5, g6);
        let g7 = fields::flag_field(7, self.is_dir);
        let p7 = p6 + g7;
        fields::lemma_plain_concat(p6, g7);
    }

    proof fn lemma_merged(self) {
        let step = ManifestFileView::stepper();
        let s0 = ManifestFileView::empty();
        let g1 = fields::text_field(1, self.id);
        let s1 = ManifestFileView { id: self.id, ..s0 };
        fields::lemma_text_field(1, self.id);
        fields::lemma_merged_small(step, s0, g1);
        assert(fields::merged(step, s0, g1) == Some(s1));
        let p1 = g1;
        let g2 = fields::text_field(2, self.relative_path);
        let s2 = ManifestFileView { relative_path: self.relative_path, ..s1 };
        fields::lemma_text_field(2, self.relative_path);
        fields::lemma_merged_small(step, s1, g2);
        assert(fields::merged(step, s1, g2) == Some(s2));
        let p2 = p1 + g2;
        fields::lemma_merged_concat(step, s0, p1, g2);
        let g3 = fields::number_field(3, self.size);
        let s3 = ManifestFileView { size: self.size, ..s2 };
        fields::lemma_merged_small(step, s2, g3);
        assert(fields::merged(step, s2, g3) == Some(s3));
        let p3 = p2 + g3;
        fields::lemma_merged_concat(step, s0, p2, g3);
        let g4 = fields::number_field(4, self.modified_ms as u64);
        let s4 = ManifestFileView { modified_ms: self.modified_ms, ..s3 };
        fields::lemma_signed(self.modified_ms);
        fields::lemma_merged_small(step, s3, g4);
        assert(fields::merged(step, s3, g4) == Some(s4));
        let p4 = p3 + g4;
        fields::lemma_merged_concat(step, s0, p3, g4);
        let g5 = fields::bytes_field(5, self.blake3);
        let s5 = ManifestFileView { blake3: self.blake3, ..s4 };
        fields::lemma_bytes_field(5, self.blake3);
        fields::lemma_merged_small(step, s4, g5);
        assert(fields::merged(step, s4, g5) == Some(s5));
        let p5 = p4 + g5;
        fields::lemma_merged_concat(step, s0, p4, g5);
        let g6 = fields::repeated_fields(6, message::encoded_all(self.chunks));
        let s6 = ManifestFileView { chunks: self.chunks, ..s5 };
        let before6 = g1 + g2 + g3 + g4 + g5;
        assert forall|i: int| 0 <= i < self.chunks.len() implies message::encoded(
            #[trigger] self.chunks[i],
        ).len() <= u64::MAX by {
            let start = before6.len() as int;
            assert(self.fields().subrange(start, start + self.chunks.len()) =~= g6);
            message::lemma_element_len(self.fields(), start, 6, self.chunks, i);
        }
        s5.lemma_chunks_merged(self.chunks);
        assert(s5.chunks + self.chunks =~= self.chunks);
        assert(fields::merged(step, s5, g6) == Some(s6));
        let p6 = p5 + g6;
        fields::lemma_merged_concat(step, s0, p5, g6);
        let g7 = fields::flag_field(7, self.is_dir);
        let s7 = ManifestFileView { is_dir: self.is_dir, ..s6 };
        fields::lemma_merged_small(step, s6, g7);
        assert(fields::merged(step, s6, g7) == Some(s7));
        let p7 = p6 + g7;
        fields::lemma_merged_concat(step, s0, p6, g7);
        assert(s7 =~= self);
    }
}

impl Message for ManifestFile {
    fn depth() -> (depth: usize) {
        2
    }

    fn empty() -> (message: ManifestFile) {
        let message = ManifestFile {
            id: String::new(),
            relative_path: String::new(),
            size: 0,
            modified_ms: 0,
            blake3: Vec::new(),
            chunks: Vec::new(),
            is_dir: false,
        };
        assert(message@ =~= ManifestFileView::empty());
        message
    }

    fn encode_raw(&self, buf: &mut Vec<u8>) {
        let ghost start = buf@;
        fields::put_text(buf, 1, self.id.as_str());
        let ghost g1 = fields::text_field(1, self@.id);
        let ghost p1 = g1;
        fields::put_text(buf, 2, self.relative_path.as_str());
        let ghost g2 = fields::text_field(2, self@.relative_path);
        let ghost p2 = p1 + g2;
        proof {
            fields::lemma_append(start, p1, g2);
        }
        fields::put_number(buf, 3, self.size);
        let ghost g3 = fields::number_field(3, self@.size);
        let ghost p3 = p2 + g3;
        proof {
            fields::lemma_append(start, p2, g3);
        }
        fields::put_number(buf, 4, self.modified_ms as u64);
        let ghost g4 = fields::number_field(4, self@.modified_ms as u64);
        let ghost p4 = p3 + g4;
        proof {
            fields::lemma_append(start, p3, g4);
        }
        fields::put_bytes(buf, 5, self.blake3.as_slice());
        let ghost g5 = fields::bytes_field(5, self@.blake3);
        let ghost p5 = p4 + g5;
        proof {
            fields::lemma_append(start, p4, g5);
        }
        message::put_messages(buf, 6, &self.chunks);
        let ghost g6 = fields::repeated_fields(6, message::encoded_all(self@.chunks));
        let ghost p6 = p5 + g6;
        proof {
            fields::lemma_append(start, p5, g6);
        }
        fields::put_flag(buf, 7, self.is_dir);
        let ghost g7 = fields::flag_field(7, self@.is_dir);
        let ghost p7 = p6 + g7;
        proof {
            fields::lemma_append(start, p6, g7);
        }
    }

    fn merge_field(&mut self, field: &RawField) -> (ok: bool) {
        let ghost before = self@;
        match field.tag {
            1 => match fields::read_text(&field.value) {
                Some(x) => {
                    self.id = x;
                },
                None => {
                    return false;
                },
            },
            2 => match fields::read_text(&field.value) {
                Some(x) => {
                    self.relative_path = x;
                },
                None => {
                    return false;
                },
            },
            3 => match fields::read_number(&field.value) {
                Some(x) => {
                    self.size = x;
                },
                None => {
                    return false;
                },
            },
            4 => match fields::read_number(&field.value) {
                Some(x) => {
                    self.modified_ms = #[verifier::truncate] (x as i64);
                },
                None => {
                    return false;
                },
            },
            5 => match fields::read_bytes(&field.value) {
                Some(x) => {
                    self.blake3 = x;
                },
                None => {
                    return false;
                },
            },
            6 => match message::read_element::<ChunkHash>(&field.value) {
                Some(x) => {
                    self.chunks.push(x);
                    assert(self@.chunks =~= before.chunks.push(x@));
                },
                None => {
                    return false;
                },
            },
            7 => match fields::read_number(&field.value) {
                Some(x) => {
                    self.is_dir = x != 0;
                },
                None => {
                    return false;
                },
            },
            _ => {},
        }
        true
    }
}

impl Clone for ManifestFile {
    fn clone(&self) -> (copy: ManifestFile)
        ensures
            copy@ == self@,
    {
        let mut chunks: Vec<ChunkHash> = Vec::new();
        let mut i: usize = 0;
        assert(fields::views(chunks@) =~= fields::views(self.chunks@).take(0));
        while i < self.chunks.len()
            invariant
                i <= self.chunks@.len(),
                fields::views(chunks@) == fields::views(self.chunks@).take(i as int),
            decreases self.chunks@.len() - i,
        {
            let ghost before = chunks@;
            let item = self.chunks[i].clone();
            chunks.push(item);
            i += 1;
            assert(fields::views(chunks@) =~= fields::views(before).push(item@));
            assert(fields::views(chunks@) =~= fields::views(self.chunks@).take(i as int));
        }
        let copy = ManifestFile {
            id: self.id.clone(),
            relative_path: self.relative_path.clone(),
            size: self.size,
            modified_ms: self.modified_ms,
            blake3: fields::copy_bytes(self.blake3.as_slice()),
            chunks,
            is_dir: self.is_dir,
        };
        assert(copy@ =~= self@);
        copy
    }
}

/// A whole snapshot.
#[derive(Debug)]
pub struct SnapshotManifest {
    pub snapshot_id: String,
    pub files: Vec<ManifestFile>,
    pub error: String,
}

/// The model of a [`SnapshotManifest`].
#[verifier::ext_equal]
pub struct SnapshotManifestView {
    pub snapshot_id: Seq<char>,
    pub files: Seq<ManifestFileView>,
    pub error: Seq<char>,
}

impl View for SnapshotManifest {
    type V = SnapshotManifestView;

    open spec fn view(&self) -> SnapshotManifestView {
        SnapshotManifestView {
            snapshot_id: self.snapshot_id@,
            files: fields::views(self.files@),
            error: self.error@,
        }
    }
}

impl SnapshotManifestView {
    /// The message once one more field was read.
    pub open spec fn step(self, field: Field) -> Option<SnapshotManifestView> {
        if field.tag == 1 {
            match fields::text_value(field.value) {
                Some(x) => Some((SnapshotManifestView { snapshot_id: x, ..self })),
                None => None,
            }
        } else if field.tag == 2 {
            match message::element_value::<ManifestFileView>(field.value) {
                Some(x) => Some((SnapshotManifestView { files: self.files.push(x), ..self })),
                None => None,
            }
        } else if field.tag == 3 {
            match fields::text_value(field.value) {
                Some(x) => Some((SnapshotManifestView { error: x, ..self })),
                None => None,
            }
        } else {
            Some(self)
        }
    }
}

impl SnapshotManifestView {
    proof fn lemma_files_merged(self, items: Seq<ManifestFileView>)
        requires
            forall|i: int|
                0 <= i < items.len() ==> message::encoded(#[trigger] items[i]).len() <= u64::MAX,
        ensures
            fields::merged(
                SnapshotManifestView::stepper(),
                self,
                fields::repeated_fields(2, message::encoded_all(items)),
            ) == Some((SnapshotManifestView { files: self.files + items, ..self })),
        decreases items.len(),
    {
        let group = fields::repeated_fields(2, message::encoded_all(items));
        if items.len() == 0 {
            assert(self.files + items =~= self.files);
            assert(group =~= Seq::empty());
        } else {
            message::lemma_roundtrip(items[0]);
            let next = SnapshotManifestView { files: self.files.push(items[0]), ..self };
            assert(group[0] == (Field { tag: 2, value: FieldValue::Bytes(message::encoded(items[0])) }));
            assert(self.step(group[0]) == Some(next));
            assert(group.skip(1) =~= fields::repeated_fields(2, message::encoded_all(items.skip(1))));
            next.lemma_files_merged(items.skip(1));
            assert(next.files + items.skip(1) =~= self.files + items);
        }
    }
}

impl Model for SnapshotManifestView {
    open spec fn depth() -> nat {
        1
    }

    open spec fn empty() -> SnapshotManifestView {
        SnapshotManifestView {
            snapshot_id: Seq::empty(),
            files: Seq::empty(),
            error: Seq::empty(),
        }
    }

    open spec fn fields(self) -> Seq<Field> {
        fields::text_field(1, self.snapshot_id)
            + fields::repeated_fields(2, message::encoded_all(self.files))
            + fields::text_field(3, self.error)
    }

    open spec fn stepper() -> spec_fn(SnapshotManifestView, Field) -> Option<SnapshotManifestView> {
        |message: SnapshotManifestView, field: Field| message.step(field)
    }

    proof fn lemma_plain(self) {
        let g1 = fields::text_field(1, self.snapshot_id);
        let p1 = g1;
        let g2 = fields::repeated_fields(2, message::encoded_all(self.files));
        let p2 = p1 + g2;
        fields::lemma_plain_concat(p1, g2);
        let g3 = fields::text_field(3, self.error);
        let p3 = p2 + g3;
        fields::lemma_plain_concat(p2, g3);
    }

    proof fn lemma_merged(self) {
        let step = SnapshotManifestView::stepper();
        let s0 = SnapshotManifestView::empty();
        let g1 = fields::text_field(1, self.snapshot_id);
        let s1 = SnapshotManifestView { snapshot_id: self.snapshot_id, ..s0 };
        fields::lemma_text_field(1, self.snapshot_id);
        fields::lemma_merged_small(step, s0, g1);
        assert(fields::merged(step, s0, g1) == Some(s1));
        let p1 = g1;
        let g2 = fields::repeated_fields(2, message::encoded_all(self.files));
        let s2 = SnapshotManifestView { files: self.files, ..s1 };
        let before2 = g1;
        assert forall|i: int| 0 <= i < self.files.len() implies message::encoded(
            #[trigger] self.files[i],
        ).len() <= u64::MAX by {
            let start = before2.len() as int;
            assert(self.fields().subrange(start, start + self.files.len()) =~= g2);
            message::lemma_element_len(self.fields(), start, 2, self.files, i);
        }
        s1.lemma_files_merged(self.files);
        assert(s1.files + self.files =~= self.files);
        assert(fields::merged(step, s1, g2) == Some(s2));
        let p2 = p1 + g2;
        fields::lemma_merged_concat(step, s0, p1, g2);
        let g3 = fields::text_field(3, self.error);
        let s3 = SnapshotManifestView { error: self.error, ..s2 };
        fields::lemma_text_field(3, self.error);
        fields::lemma_merged_small(step, s2, g3);
        assert(fields::merged(step, s2, g3) == Some(s3));
        let p3 = p2 + g3;
        fields::lemma_merged_concat(step, s0, p2, g3);
        assert(s3 =~= self);
    }
}

impl Message for SnapshotManifest {
    fn depth() -> (depth: usize) {
        1
    }

    fn empty() -> (message: SnapshotManifest) {
        let message = SnapshotManifest {
            snapshot_id: String::new(),
            files: Vec::new(),
            error: String::new(),
        };
        assert(message@ =~= SnapshotManifestView::empty());
        message
    }

    fn encode_raw(&self, buf: &mut Vec<u8>) {
        let ghost start = buf@;
        fields::put_text(buf, 1, self.snapshot_id.as_str());
        let ghost g1 = fields::text_field(1, self@.snapshot_id);
        let ghost p1 = g1;
        message::put_messages(buf, 2, &self.files);
        let ghost g2 = fields::repeated_fields(2, message::encoded_all(self@.files));
        let ghost p2 = p1 + g2;
        proof {
            fields::lemma_append(start, p1, g2);
        }
        fields::put_text(buf, 3, self.error.as_str());
        let ghost g3 = fields::text_field(3, self@.error);
        let ghost p3 = p2 + g3;
        proof {
            fields::lemma_append(start, p2, g3);
        }
    }

    fn merge_field(&mut self, field: &RawField) -> (ok: bool) {
        let ghost before = self@;
        match field.tag {
            1 => match fields::read_text(&field.value) {
                Some(x) => {
                    self.snapshot_id = x;
                },
                None => {
                    return false;
                },
            },
            2 => match message::read_element::<ManifestFile>(&field.value) {
                Some(x) => {
                    self.files.push(x);
                    assert(self@.files =~= before.files.push(x@));
                },
                None => {
                    return false;
                },
            },
            3 => match fields::read_text(&field.value) {
                Some(x) => {
                    self.error = x;
                },
                None => {
                    return false;
                },
            },
            _ => {},
        }
        true
    }
}

/// A part of a snapshot.
#[derive(Debug)]
pub struct SnapshotManifestPage {
    pub snapshot_id: String,
    pub files: Vec<ManifestFile>,
    /// Whether this is the last part.
    pub done: bool,
    pub error: String,
}

/// The model of a [`SnapshotManifestPage`].
#[verifier::ext_equal]
pub struct SnapshotManifestPageView {
    pub snapshot_id: Seq<char>,
    pub files: Seq<ManifestFileView>,
    pub done: bool,
    pub error: Seq<char>,
}

impl View for SnapshotManifestPage {
    type V = SnapshotManifestPageView;

    open spec fn view(&self) -> SnapshotManifestPageView {
        SnapshotManifestPageView {
            snapshot_id: self.snapshot_id@,
            files: fields::views(self.files@),
            done: self.done,
            error: self.error@,
        }
    }
}

impl SnapshotManifestPageView {
    /// The message once one more field was read.
    pub open spec fn step(self, field: Field) -> Option<SnapshotManifestPageView> {
        if field.tag == 1 {
            match fields::text_value(field.value) {
                Some(x) => Some((SnapshotManifestPageView { snapshot_id: x, ..self })),
                None => None,
            }
        } else if field.tag == 2 {
            match message::element_value::<ManifestFileView>(field.value) {
                Some(x) => Some((SnapshotManifestPageView { files: self.files.push(x), ..self })),
                None => None,
            }
        } else if field.tag == 3 {
            match fields::number_value(field.value) {
                Some(x) => Some((SnapshotManifestPageView { done: x != 0, ..self })),
                None => None,
            }
        } else if field.tag == 4 {
            match fields::text_value(field.value) {
                Some(x) => Some((SnapshotManifestPageView { error: x, ..self })),
                None => None,
            }
        } else {
            Some(self)
        }
    }
}

impl SnapshotManifestPageView {
    proof fn lemma_files_merged(self, items: Seq<ManifestFileView>)
        requires
            forall|i: int|
                0 <= i < items.len() ==> message::encoded(#[trigger] items[i]).len() <= u64::MAX,
        ensures
            fields::merged(
                SnapshotManifestPageView::stepper(),
                self,
                fields::repeated_fields(2, message::encoded_all(items)),
            ) == Some((SnapshotManifestPageView { files: self.files + items, ..self })),
        decreases items.len(),
    {
        let group = fields::repeated_fields(2, message::encoded_all(items));
        if items.len() == 0 {
            assert(self.files + items =~= self.files);
            assert(group =~= Seq::empty());
        } else {
            message::lemma_roundtrip(items[0]);
            let next = SnapshotManifestPageView { files: self.files.push(items[0]), ..self };
            assert(group[0] == (Field { tag: 2, value: FieldValue::Bytes(message::encoded(items[0])) }));
            assert(self.step(group[0]) == Some(next));
            assert(group.skip(1) =~= fields::repeated_fields(2, message::encoded_all(items.skip(1))));
            next.lemma_files_merged(items.skip(1));
            assert(next.files + items.skip(1) =~= self.files + items);
        }
    }
}

impl Model for SnapshotManifestPageView {
    open spec fn depth() -> nat {
        1
    }

    open spec fn empty() -> SnapshotManifestPageView {
        SnapshotManifestPageView {
            snapshot_id: Seq::empty(),
            files: Seq::empty(),
            done: false,
            error: Seq::empty(),
        }
    }

    open spec fn fields(self) -> Seq<Field> {
        fields::text_field(1, self.snapshot_id)
            + fields::repeated_fields(2, message::encoded_all(self.files))
            + fields::flag_field(3, self.done)
            + fields::text_field(4, self.error)
    }

    open spec fn stepper() -> spec_fn(SnapshotManifestPageView, Field) -> Option<SnapshotManifestPageView> {
        |message: SnapshotManifestPageView, field: Field| message.step(field)
    }

    proof fn lemma_plain(self) {
        let g1 = fields::text_field(1, self.snapshot_id);
        let p1 = g1;
        let g2 = fields::repeated_fields(2, message::encoded_all(self.files));
        let p2 = p1 + g2;
        fields::lemma_plain_concat(p1, g2);
        let g3 = fields::flag_field(3, self.done);
        let p3 = p2 + g3;
        fields::lemma_plain_concat(p2, g3);
        let g4 = fields::text_field(4, self.error);
        let p4 = p3 + g4;
        fields::lemma_plain_concat(p3, g4);
    }

    proof fn lemma_merged(self) {
        let step = SnapshotManifestPageView::stepper();
        let s0 = SnapshotManifestPageView::empty();
        let g1 = fields::text_field(1, self.snapshot_id);
        let s1 = SnapshotManifestPageView { snapshot_id: self.snapshot_id, ..s0 };
        fields::lemma_text_field(1, self.snapshot_id);
        fields::lemma_merged_small(step, s0, g1);
        assert(fields::merged(step, s0, g1) == Some(s1));
        let p1 = g1;
        let g2 = fields::repeated_fields(2, message::encoded_all(self.files));
        let s2 = SnapshotManifestPageView { files: self.files, ..s1 };
        let before2 = g1;
        assert forall|i: int| 0 <= i < self.files.len() implies message::encoded(
            #[trigger] self.files[i],
        ).len() <= u64::MAX by {
            let start = before2.len() as int;
            assert(self.fields().subrange(start, start + self.files.len()) =~= g2);
            message::lemma_element_len(self.fields(), start, 2, self.files, i);
        }
        s1.lemma_files_merged(self.files);
        assert(s1.files + self.files =~= self.files);
        assert(fields::merged(step, s1, g2) == Some(s2));
        let p2 = p1 + g2;
        fields::lemma_merged_concat(step, s0, p1, g2);
        let g3 = fields::flag_field(3, self.done);
        let s3 = SnapshotManifestPageView { done: self.done, ..s2 };
        fields::lemma_merged_small(step, s2, g3);
        assert(fields::merged(step, s2, g3) == Some(s3));
        let p3 = p2 + g3;
        fields::lemma_merged_concat(step, s0, p2, g3);
        let g4 = fields::text_field(4, self.error);
        let s4 = SnapshotManifestPageView { error: self.error, ..s3 };
        fields::lemma_text_field(4, self.error);
        fields::lemma_merged_small(step, s3, g4);
        assert(fields::merged(step, s3, g4) == Some(s4));
        let p4 = p3 + g4;
        fields::lemma_merged_concat(step, s0, p3, g4);
        assert(s4 =~= self);
    }
}

impl Message for SnapshotManifestPage {
    fn depth() -> (depth: usize) {
        1
    }

    fn empty() -> (message: SnapshotManifestPage) {
        let message = SnapshotManifestPage {
            snapshot_id: String::new(),
            files: Vec::new(),
            done: false,
            error: String::new(),
        };
        assert(message@ =~= SnapshotManifestPageView::empty());
        message
    }

    fn encode_raw(&self, buf: &mut Vec<u8>) {
        let ghost start = buf@;
        fields::put_text(buf, 1, self.snapshot_id.as_str());
        let ghost g1 = fields::text_field(1, self@.snapshot_id);
        let ghost p1 = g1;
        message::put_messages(buf, 2, &self.files);
        let ghost g2 = fields::repeated_fields(2, message::encoded_all(self@.files));
        let ghost p2 = p1 + g2;
        proof {
            fields::lemma_append(start, p1, g2);
        }
        fields::put_flag(buf, 3, self.done);
        let ghost g3 = fields::flag_field(3, self@.done);
        let ghost p3 = p2 + g3;
        proof {
            fields::lemma_append(start, p2, g3);
        }
        fields::put_text(buf, 4, self.error.as_str());
        let ghost g4 = fields::text_field(4, self@.error);
        let ghost p4 = p3 + g4;
        proof {
            fields::lemma_append(start, p3, g4);
        }
    }

    fn merge_field(&mut self, field: &RawField) -> (ok: bool) {
        let ghost before = self@;
        match field.tag {
            1 => match fields::read_text(&field.value) {
                Some(x) => {
                    self.snapshot_id = x;
                },
                None => {
                    return false;
                },
            },
            2 => match message::read_element::<ManifestFile>(&field.value) {
                Some(x) => {
                    self.files.push(x);
                    assert(self@.files =~= before.files.push(x@));
                },
                None => {
                    return false;
                },
            },
            3 => match fields::read_number(&field.value) {
                Some(x) => {
                    self.done = x != 0;
                },
                None => {
                    return false;
                },
            },
            4 => match fields::read_text(&field.value) {
                Some(x) => {
                    self.error = x;
                },
                None => {
                    return false;
                },
            },
            _ => {},
        }
        true
    }
}

} // verus!
