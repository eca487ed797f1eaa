//! The messages that move file contents, and those that keep a connection going.

use vstd::prelude::*;

use crate::fields;
use crate::fields::{Field, FieldValue, RawField};
use crate::message;
use crate::message::{Message, Model};

verus! {

/// Asks for several small files at once.
#[derive(Debug)]
pub struct SmallFileBatchRequest {
    pub snapshot_id: String,
    pub file_ids: Vec<String>,
}

/// The model of a [`SmallFileBatchRequest`].
#[verifier::ext_equal]
pub struct SmallFileBatchRequestView {
    pub snapshot_id: Seq<char>,
    pub file_ids: Seq<Seq<char>>,
}

impl View for SmallFileBatchRequest {
    type V = SmallFileBatchRequestView;

    open spec fn view(&self) -> SmallFileBatchRequestView {
        SmallFileBatchRequestView {
            snapshot_id: self.snapshot_id@,
            file_ids: fields::views(self.file_ids@),
        }
    }
}

impl SmallFileBatchRequestView {
    /// The message once one more field was read.
    pub open spec fn step(self, field: Field) -> Option<SmallFileBatchRequestView> {
        if field.tag == 1 {
            match fields::text_value(field.value) {
                Some(x) => Some((SmallFileBatchRequestView { snapshot_id: x, ..self })),
                None => None,
            }
        } else if field.tag == 2 {
            match fields::text_value(field.value) {
                Some(x) => Some((SmallFileBatchRequestView { file_ids: self.file_ids.push(x), ..self })),
                None => None,
            }
        } else {
            Some(self)
        }
    }
}

impl SmallFileBatchRequestView {
    proof fn lemma_file_ids_merged(self, items: Seq<Seq<char>>)
        ensures
            fields::merged(
                SmallFileBatchRequestView::stepper(),
                self,
                fields::repeated_fields(2, fields::text_bytes(items)),
            ) == Some((SmallFileBatchRequestView { file_ids: self.file_ids + items, ..self })),
        decreases items.len(),
    {
        let group = fields::repeated_fields(2, fields::text_bytes(items));
        if items.len() == 0 {
            assert(self.file_ids + items =~= self.file_ids);
            assert(group =~= Seq::empty());
        } else {
            vstd::utf8::encode_utf8_valid_utf8(items[0]);
            vstd::utf8::encode_utf8_decode_utf8(items[0]);
            let next = SmallFileBatchRequestView { file_ids: self.file_ids.push(items[0]), ..self };
            assert(group[0] == (Field { tag: 2, value: FieldValue::Bytes(vstd::utf8::encode_utf8(items[0])) }));
            assert(self.step(group[0]) == Some(next));
            assert(group.skip(1) =~= fields::repeated_fields(2, fields::text_bytes(items.skip(1))));
            next.lemma_file_ids_merged(items.skip(1));
            assert(next.file_ids + items.skip(1) =~= self.file_ids + items);
        }
    }
}

impl Model for SmallFileBatchRequestView {
    open spec fn depth() -> nat {
        1
    }

    open spec fn empty() -> SmallFileBatchRequestView {
        SmallFileBatchRequestView {
            snapshot_id: Seq::empty(),
            file_ids: Seq::empty(),
        }
    }

    open spec fn fields(self) -> Seq<Field> {
        fields::text_field(1, self.snapshot_id)
            + fields::repeated_fields(2, fields::text_bytes(self.file_ids))
    }

    open spec fn stepper() -> spec_fn(SmallFileBatchRequestView, Field) -> Option<SmallFileBatchRequestView> {
        |message: SmallFileBatchRequestView, field: Field| message.step(field)
    }

    proof fn lemma_plain(self) {
        let g1 = fields::text_field(1, self.snapshot_id);
        let p1 = g1;
        let g2 = fields::repeated_fields(2, fields::text_bytes(self.file_ids));
        let p2 = p1 + g2;
        fields::lemma_plain_concat(p1, g2);
    }

    proof fn lemma_merged(self) {
        let step = SmallFileBatchRequestView::stepper();
        let s0 = SmallFileBatchRequestView::empty();
        let g1 = fields::text_field(1, self.snapshot_id);
        let s1 = SmallFileBatchRequestView { snapshot_id: self.snapshot_id, ..s0 };
        fields::lemma_text_field(1, self.snapshot_id);
        fields::lemma_merged_small(step, s0, g1);
        assert(fields::merged(step, s0, g1) == Some(s1));
        let p1 = g1;
        let g2 = fields::repeated_fields(2, fields::text_bytes(self.file_ids));
        let s2 = SmallFileBatchRequestView { file_ids: self.file_ids, ..s1 };
        s1.lemma_file_ids_merged(self.file_ids);
        assert(s1.file_ids + self.file_ids =~= self.file_ids);
        assert(fields::merged(step, s1, g2) == Some(s2));
        let p2 = p1 + g2;
        fields::lemma_merged_concat(step, s0, p1, g2);
        assert(s2 =~= self);
    }
}

impl Message for SmallFileBatchRequest {
    fn depth() -> (depth: usize) {
        1
    }

    fn empty() -> (message: SmallFileBatchRequest) {
        let message = SmallFileBatchRequest {
            snapshot_id: String::new(),
            file_ids: Vec::new(),
        };
        assert(message@ =~= SmallFileBatchRequestView::empty());
        message
    }

    fn encode_raw(&self, buf: &mut Vec<u8>) {
        let ghost start = buf@;
        fields::put_text(buf, 1, self.snapshot_id.as_str());
        let ghost g1 = fields::text_field(1, self@.snapshot_id);
        let ghost p1 = g1;
        fields::put_texts(buf, 2, &self.file_ids);
        let ghost g2 = fields::repeated_fields(2, fields::text_bytes(self@.file_ids));
        let ghost p2 = p1 + g2;
        proof {
            fields::lemma_append(start, p1, g2);
        }
    }

    fn merge_field(&mut self, field: &RawField) -> (ok: bool) {
        let ghost before = self@;
        match field.tag {
            1 => match fields::read_text(&field.value) {
                Some(x) => {
                    self.snapshot_id = x;
                },
                None => {
                    return false;
                },
            },
            2 => match fields::read_text(&field.value) {
                Some(x) => {
                    self.file_ids.push(x);
                    assert(self@.file_ids =~= before.file_ids.push(x@));
                },
                None => {
                    return false;
                },
            },
            _ => {},
        }
        true
    }
}

/// Follows the data of one file of a batch.
#[derive(Debug)]
pub struct SmallFileComplete {
    pub file_id: String,
    pub blake3: Vec<u8>,
    pub bytes_sent: u64,
}

/// The model of a [`SmallFileComplete`].
#[verifier::ext_equal]
pub struct SmallFileCompleteView {
    pub file_id: Seq<char>,
    pub blake3: Seq<u8>,
    pub bytes_sent: u64,
}

impl View for SmallFileComplete {
    type V = SmallFileCompleteView;

    open spec fn view(&self) -> SmallFileCompleteView {
        SmallFileCompleteView {
            file_id: self.file_id@,
            blake3: self.blake3@,
            bytes_sent: self.bytes_sent,
        }
    }
}

impl SmallFileCompleteView {
    /// The message once one more field was read.
    pub open spec fn step(self, field: Field) -> Option<SmallFileCompleteView> {
        if field.tag == 1 {
            match fields::text_value(field.value) {
                Some(x) => Some((SmallFileCompleteView { file_id: x, ..self })),
                None => None,
            }
        } else if field.tag == 2 {
            match fields::bytes_value(field.value) {
                Some(x) => Some((SmallFileCompleteView { blake3: x, ..self })),
                None => None,
            }
        } else if field.tag == 3 {
            match fields::number_value(field.value) {
                Some(x) => Some((SmallFileCompleteView { bytes_sent: x, ..self })),
                None => None,
            }
        } else {
            Some(self)
        }
    }
}

impl Model for SmallFileCompleteView {
    open spec fn depth() -> nat {
        1
    }

    open spec fn empty() -> SmallFileCompleteView {
        SmallFileCompleteView {
            file_id: Seq::empty(),
            blake3: Seq::empty(),
            bytes_sent: 0,
        }
    }

    open spec fn fields(self) -> Seq<Field> {
        fields::text_field(1, self.file_id)
            + fields::bytes_field(2, self.blake3)
            + fields::number_field(3, self.bytes_sent)
    }

    open spec fn stepper() -> spec_fn(SmallFileCompleteView, Field) -> Option<SmallFileCompleteView> {
        |message: SmallFileCompleteView, field: Field| message.step(field)
    }

    proof fn lemma_plain(self) {
        let g1 = fields::text_field(1, self.file_id);
        let p1 = g1;
        let g2 = fields::bytes_field(2, self.blake3);
        let p2 = p1 + g2;
        fields::lemma_plain_concat(p1, g2);
        let g3 = fields::number_field(3, self.bytes_sent);
        let p3 = p2 + g3;
        fields::lemma_plain_concat(p2, g3);
    }

    proof fn lemma_merged(self) {
        let step = SmallFileCompleteView::stepper();
        let s0 = SmallFileCompleteView::empty();
        let g1 = fields::text_field(1, self.file_id);
        let s1 = SmallFileCompleteView { file_id: self.file_id, ..s0 };
        fields::lemma_text_field(1, self.file_id);
        fields::lemma_merged_small(step, s0, g1);
        assert(fields::merged(step, s0, g1) == Some(s1));
        let p1 = g1;
        let g2 = fields::bytes_field(2, self.blake3);
        let s2 = SmallFileCompleteView { blake3: self.blake3, ..s1 };
        fields::lemma_bytes_field(2, self.blake3);
        fields::lemma_merged_small(step, s1, g2);
        assert(fields::merged(step, s1, g2) == Some(s2));
        let p2 = p1 + g2;
        fields::lemma_merged_concat(step, s0, p1, g2);
        let g3 = fields::number_field(3, self.bytes_sent);
        let s3 = SmallFileCompleteView { bytes_sent: self.bytes_sent, ..s2 };
        fields::lemma_merged_small(step, s2, g3);
        assert(fields::merged(step, s2, g3) == Some(s3));
        let p3 = p2 + g3;
        fields::lemma_merged_concat(step, s0, p2, g3);
        assert(s3 =~= self);
    }
}

impl Message for SmallFileComplete {
    fn depth() -> (depth: usize) {
        1
    }

    fn empty() -> (message: SmallFileComplete) {
        let message = SmallFileComplete {
            file_id: String::new(),
            blake3: Vec::new(),
            bytes_sent: 0,
        };
        assert(message@ =~= SmallFileCompleteView::empty());
        message
    }

    fn encode_raw(&self, buf: &mut Vec<u8>) {
        let ghost start = buf@;
        fields::put_text(buf, 1, self.file_id.as_str());
        let ghost g1 = fields::text_field(1, self@.file_id);
        let ghost p1 = g1;
        fields::put_bytes(buf, 2, self.blake3.as_slice());
        let ghost g2 = fields::bytes_field(2, self@.blake3);
        let ghost p2 = p1 + g2;
        proof {
            fields::lemma_append(start, p1, g2);
        }
        fields::put_number(buf, 3, self.bytes_sent);
        let ghost g3 = fields::number_field(3, self@.bytes_sent);
        let ghost p3 = p2 + g3;
        proof {
            fields::lemma_append(start, p2, g3);
        }
    }

    fn merge_field(&mut self, field: &RawField) -> (ok: bool) {
        match field.tag {
            1 => match fields::read_text(&field.value) {
                Some(x) => {
                    self.file_id = x;
                },
                None => {
                    return false;
                },
            },
            2 => match fields::read_bytes(&field.value) {
                Some(x) => {
                    self.blake3 = x;
                },
                None => {
                    return false;
                },
            },
            3 => match fields::read_number(&field.value) {
                Some(x) => {
                    self.bytes_sent = x;
                },
                None => {
                    return false;
                },
            },
            _ => {},
        }
        true
    }
}

/// Ends a batch.
#[derive(Debug)]
pub struct SmallFileBatchComplete {
    pub files_sent: u32,
    pub bytes_sent: u64,
}

/// The model of a [`SmallFileBatchComplete`].
#[verifier::ext_equal]
pub struct SmallFileBatchCompleteView {
    pub files_sent: u32,
    pub bytes_sent: u64,
}

impl View for SmallFileBatchComplete {
    type V = SmallFileBatchCompleteView;

    open spec fn view(&self) -> SmallFileBatchCompleteView {
        SmallFileBatchCompleteView {
            files_sent: self.files_sent,
            bytes_sent: self.bytes_sent,
        }
    }
}

impl SmallFileBatchCompleteView {
    /// The message once one more field was read.
    pub open spec fn step(self, field: Field) -> Option<SmallFileBatchCompleteView> {
        if field.tag == 1 {
            match fields::number_value(field.value) {
                Some(x) => Some((SmallFileBatchCompleteView { files_sent: x as u32, ..self })),
                None => None,
            }
        } else if field.tag == 2 {
            match fields::number_value(field.value) {
                Some(x) => Some((SmallFileBatchCompleteView { bytes_sent: x, ..self })),
                None => None,
            }
        } else {
            Some(self)
        }
    }
}

impl Model for SmallFileBatchCompleteView {
    open spec fn depth() -> nat {
        1
    }

    open spec fn empty() -> SmallFileBatchCompleteView {
        SmallFileBatchCompleteView {
            files_sent: 0,
            bytes_sent: 0,
        }
    }

    open spec fn fields(self) -> Seq<Field> {
        fields::number_field(1, self.files_sent as u64)
            + fields::number_field(2, self.bytes_sent)
    }

    open spec fn stepper() -> spec_fn(SmallFileBatchCompleteView, Field) -> Option<SmallFileBatchCompleteView> {
        |message: SmallFileBatchCompleteView, field: Field| message.step(field)
    }

    proof fn lemma_plain(self) {
        let g1 = fields::number_field(1, self.files_sent as u64);
        let p1 = g1;
        let g2 = fields::number_field(2, self.bytes_sent);
        let p2 = p1 + g2;
        fields::lemma_plain_concat(p1, g2);
    }

    proof fn lemma_merged(self) {
        let step = SmallFileBatchCompleteView::stepper();
        let s0 = SmallFileBatchCompleteView::empty();
        let g1 = fields::number_field(1, self.files_sent as u64);
        let s1 = SmallFileBatchCompleteView { files_sent: self.files_sent, ..s0 };
        fields::lemma_merged_small(step, s0, g1);
        assert(fields::merged(step, s0, g1) == Some(s1));
        let p1 = g1;
        let g2 = fields::number_field(2, self.bytes_sent);
        let s2 = SmallFileBatchCompleteView { bytes_sent: self.bytes_sent, ..s1 };
        fields::lemma_merged_small(step, s1, g2);
        assert(fields::merged(step, s1, g2) == Some(s2));
        let p2 = p1 + g2;
        fields::lemma_merged_concat(step, s0, p1, g2);
        assert(s2 =~= self);
    }
}

impl Message for SmallFileBatchComplete {
    fn depth() -> (depth: usize) {
        1
    }

    fn empty() -> (message: SmallFileBatchComplete) {
        let message = SmallFileBatchComplete {
            files_sent: 0,
            bytes_sent: 0,
        };
        assert(message@ =~= SmallFileBatchCompleteView::empty());
        message
    }

    fn encode_raw(&self, buf: &mut Vec<u8>) {
        let ghost start = buf@;
        fields::put_number(buf, 1, self.files_sent as u64);
        let ghost g1 = fields::number_field(1, self@.files_sent as u64);
        let ghost p1 = g1;
        fields::put_number(buf, 2, self.bytes_sent);
        let ghost g2 = fields::number_field(2, self@.bytes_sent);
        let ghost p2 = p1 + g2;
        proof {
            fields::lemma_append(start, p1, g2);
        }
    }

    fn merge_field(&mut self, field: &RawField) -> (ok: bool) {
        match field.tag {
            1 => match fields::read_number(&field.value) {
                Some(x) => {
                    self.files_sent = #[verifier::truncate] (x as u32);
                },
                None => {
                    return false;
                },
            },
            2 => match fields::read_number(&field.value) {
                Some(x) => {
                    self.bytes_sent = x;
                },
                None => {
                    return false;
                },
            },
            _ => {},
        }
        true
    }
}

/// Asks for one chunk of a file.
#[derive(Debug)]
pub struct ChunkRequest {
    pub snapshot_id: String,
    pub file_id: String,
    pub chunk_index: u32,
}

/// The model of a [`ChunkRequest`].
#[verifier::ext_equal]
pub struct ChunkRequestView {
    pub snapshot_id: Seq<char>,
    pub file_id: Seq<char>,
    pub chunk_index: u32,
}

impl View for ChunkRequest {
    type V = ChunkRequestView;

    open spec fn view(&self) -> ChunkRequestView {
        ChunkRequestView {
            snapshot_id: self.snapshot_id@,
            file_id: self.file_id@,
            chunk_index: self.chunk_index,
        }
    }
}

impl ChunkRequestView {
    /// The message once one more field was read.
    pub open spec fn step(self, field: Field) -> Option<ChunkRequestView> {
        if field.tag == 1 {
            match fields::text_value(field.value) {
                Some(x) => Some((ChunkRequestView { snapshot_id: x, ..self })),
                None => None,
            }
        } else if field.tag == 2 {
            match fields::text_value(field.value) {
                Some(x) => Some((ChunkRequestView { file_id: x, ..self })),
                None => None,
            }
        } else if field.tag == 3 {
            match fields::number_value(field.value) {
                Some(x) => Some((ChunkRequestView { chunk_index: x as u32, ..self })),
                None => None,
            }
        } else {
            Some(self)
        }
    }
}

impl Model for ChunkRequestView {
    open spec fn depth() -> nat {
        1
    }

    open spec fn empty() -> ChunkRequestView {
        ChunkRequestView {
            snapshot_id: Seq::empty(),
            file_id: Seq::empty(),
            chunk_index: 0,
        }
    }

    open spec fn fields(self) -> Seq<Field> {
        fields::text_field(1, self.snapshot_id)
            + fields::text_field(2, self.file_id)
            + fields::number_field(3, self.chunk_index as u64)
    }

    open spec fn stepper() -> spec_fn(ChunkRequestView, Field) -> Option<ChunkRequestView> {
        |message: ChunkRequestView, field: Field| message.step(field)
    }

    proof fn lemma_plain(self) {
        let g1 = fields::text_field(1, self.snapshot_id);
        let p1 = g1;
        let g2 = fields::text_field(2, self.file_id);
        let p2 = p1 + g2;
        fields::lemma_plain_concat(p1, g2);
        let g3 = fields::number_field(3, self.chunk_index as u64);
        let p3 = p2 + g3;
        fields::lemma_plain_concat(p2, g3);
    }

    proof fn lemma_merged(self) {
        let step = ChunkRequestView::stepper();
        let s0 = ChunkRequestView::empty();
        let g1 = fields::text_field(1, self.snapshot_id);
        let s1 = ChunkRequestView { snapshot_id: self.snapshot_id, ..s0 };
        fields::lemma_text_field(1, self.snapshot_id);
        fields::lemma_merged_small(step, s0, g1);
        assert(fields::merged(step, s0, g1) == Some(s1));
        let p1 = g1;
        let g2 = fields::text_field(2, self.file_id);
        let s2 = ChunkRequestView { file_id: self.file_id, ..s1 };
        fields::lemma_text_field(2, self.file_id);
        fields::lemma_merged_small(step, s1, g2);
        assert(fields::merged(step, s1, g2) == Some(s2));
        let p2 = p1 + g2;
        fields::lemma_merged_concat(step, s0, p1, g2);
        let g3 = fields::number_field(3, self.chunk_index as u64);
        let s3 = ChunkRequestView { chunk_index: self.chunk_index, ..s2 };
        fields::lemma_merged_small(step, s2, g3);
        assert(fields::merged(step, s2, g3) == Some(s3));
        let p3 = p2 + g3;
        fields::lemma_merged_concat(step, s0, p2, g3);
        assert(s3 =~= self);
    }
}

impl Message for ChunkRequest {
    fn depth() -> (depth: usize) {
        1
    }

    fn empty() -> (message: ChunkRequest) {
        let message = ChunkRequest {
            snapshot_id: String::new(),
            file_id: String::new(),
            chunk_index: 0,
        };
        assert(message@ =~= ChunkRequestView::empty());
        message
    }

    fn encode_raw(&self, buf: &mut Vec<u8>) {
        let ghost start = buf@;
        fields::put_text(buf, 1, self.snapshot_id.as_str());
        let ghost g1 = fields::text_field(1, self@.snapshot_id);
        let ghost p1 = g1;
        fields::put_text(buf, 2, self.file_id.as_str());
        let ghost g2 = fields::text_field(2, self@.file_id);
        let ghost p2 = p1 + g2;
        proof {
            fields::lemma_append(start, p1, g2);
        }
        fields::put_number(buf, 3, self.chunk_index as u64);
        let ghost g3 = fields::number_field(3, self@.chunk_index as u64);
        let ghost p3 = p2 + g3;
        proof {
            fields::lemma_append(start, p2, g3);
        }
    }

    fn merge_field(&mut self, field: &RawField) -> (ok: bool) {
        match field.tag {
            1 => match fields::read_text(&field.value) {
                Some(x) => {
                    self.snapshot_id = x;
                },
                None => {
                    return false;
                },
            },
            2 => match fields::read_text(&field.value) {
                Some(x) => {
                    self.file_id = x;
                },
                None => {
                    return false;
                },
            },
            3 => match fields::read_number(&field.value) {
                Some(x) => {
                    self.chunk_index = #[verifier::truncate] (x as u32);
                },
                None => {
                    return false;
                },
            },
            _ => {},
        }
        true
    }
}

/// Follows the data of a chunk.
#[derive(Debug)]
pub struct ChunkComplete {
    pub file_id: String,
    pub chunk_index: u32,
    pub blake3: Vec<u8>,
    pub bytes_sent: u64,
}

/// The model of a [`ChunkComplete`].
#[verifier::ext_equal]
pub struct ChunkCompleteView {
    pub file_id: Seq<char>,
    pub chunk_index: u32,
    pub blake3: Seq<u8>,
    pub bytes_sent: u64,
}

impl View for ChunkComplete {
    type V = ChunkCompleteView;

    open spec fn view(&self) -> ChunkCompleteView {
        ChunkCompleteView {
            file_id: self.file_id@,
            chunk_index: self.chunk_index,
            blake3: self.blake3@,
            bytes_sent: self.bytes_sent,
        }
    }
}

impl ChunkCompleteView {
    /// The message once one more field was read.
    pub open spec fn step(self, field: Field) -> Option<ChunkCompleteView> {
        if field.tag == 1 {
            match fields::text_value(field.value) {
                Some(x) => Some((ChunkCompleteView { file_id: x, ..self })),
                None => None,
            }
        } else if field.tag == 2 {
            match fields::number_value(field.value) {
                Some(x) => Some((ChunkCompleteView { chunk_index: x as u32, ..self })),
                None => None,
            }
        } else if field.tag == 3 {
            match fields::bytes_value(field.value) {
                Some(x) => Some((ChunkCompleteView { blake3: x, ..self })),
                None => None,
            }
        } else if field.tag == 4 {
            match fields::number_value(field.value) {
                Some(x) => Some((ChunkCompleteView { bytes_sent: x, ..self })),
                None => None,
            }
        } else {
            Some(self)
        }
    }
}

impl Model for ChunkCompleteView {
    open spec fn depth() -> nat {
        1
    }

    open spec fn empty() -> ChunkCompleteView {
        ChunkCompleteView {
            file_id: Seq::empty(),
            chunk_index: 0,
            blake3: Seq::empty(),
            bytes_sent: 0,
        }
    }

    open spec fn fields(self) -> Seq<Field> {
        fields::text_field(1, self.file_id)
            + fields::number_field(2, self.chunk_index as u64)
            + fields::bytes_field(3, self.blake3)
            + fields::number_field(4, self.bytes_sent)
    }

    open spec fn stepper() -> spec_fn(ChunkCompleteView, Field) -> Option<ChunkCompleteView> {
        |message: ChunkCompleteView, field: Field| message.step(field)
    }

    proof fn lemma_plain(self) {
        let g1 = fields::text_field(1, self.file_id);
        let p1 = g1;
        let g2 = fields::number_field(2, self.chunk_index as u64);
        let p2 = p1 + g2;
        fields::lemma_plain_concat(p1, g2);
        let g3 = fields::bytes_field(3, self.blake3);
        let p3 = p2 + g3;
        fields::lemma_plain_concat(p2, g3);
        let g4 = fields::number_field(4, self.bytes_sent);
        let p4 = p3 + g4;
        fields::lemma_plain_concat(p3, g4);
    }

    proof fn lemma_merged(self) {
        let step = ChunkCompleteView::stepper();
        let s0 = ChunkCompleteView::empty();
        let g1 = fields::text_field(1, self.file_id);
        let s1 = ChunkCompleteView { file_id: self.file_id, ..s0 };
        fields::lemma_text_field(1, self.file_id);
        fields::lemma_merged_small(step, s0, g1);
        assert(fields::merged(step, s0, g1) == Some(s1));
        let p1 = g1;
        let g2 = fields::number_field(2, self.chunk_index as u64);
        let s2 = ChunkCompleteView { chunk_index: self.chunk_index, ..s1 };
        fields::lemma_merged_small(step, s1, g2);
        assert(fields::merged(step, s1, g2) == Some(s2));
        let p2 = p1 + g2;
        fields::lemma_merged_concat(step, s0, p1, g2);
        let g3 = fields::bytes_field(3, self.blake3);
        let s3 = ChunkCompleteView { blake3: self.blake3, ..s2 };
        fields::lemma_bytes_field(3, self.blake3);
        fields::lemma_merged_small(step, s2, g3);
        assert(fields::merged(step, s2, g3) == Some(s3));
        let p3 = p2 + g3;
        fields::lemma_merged_concat(step, s0, p2, g3);
        let g4 = fields::number_field(4, self.bytes_sent);
        let s4 = ChunkCompleteView { bytes_sent: self.bytes_sent, ..s3 };
        fields::lemma_merged_small(step, s3, g4);
        assert(fields::merged(step, s3, g4) == Some(s4));
        let p4 = p3 + g4;
        fields::lemma_merged_concat(step, s0, p3, g4);
        assert(s4 =~= self);
    }
}

impl Message for ChunkComplete {
    fn depth() -> (depth: usize) {
        1
    }

    fn empty() -> (message: ChunkComplete) {
        let message = ChunkComplete {
            file_id: String::new(),
            chunk_index: 0,
            blake3: Vec::new(),
            bytes_sent: 0,
        };
        assert(message@ =~= ChunkCompleteView::empty());
        message
    }

    fn encode_raw(&self, buf: &mut Vec<u8>) {
        let ghost start = buf@;
        fields::put_text(buf, 1, self.file_id.as_str());
        let ghost g1 = fields::text_field(1, self@.file_id);
        let ghost p1 = g1;
        fields::put_number(buf, 2, self.chunk_index as u64);
        let ghost g2 = fields::number_field(2, self@.chunk_index as u64);
        let ghost p2 = p1 + g2;
        proof {
            fields::lemma_append(start, p1, g2);
        }
        fields::put_bytes(buf, 3, self.blake3.as_slice());
        let ghost g3 = fields::bytes_field(3, self@.blake3);
        let ghost p3 = p2 + g3;
        proof {
            fields::lemma_append(start, p2, g3);
        }
        fields::put_number(buf, 4, self.bytes_sent);
        let ghost g4 = fields::number_field(4, self@.bytes_sent);
        let ghost p4 = p3 + g4;
        proof {
            fields::lemma_append(start, p3, g4);
        }
    }

    fn merge_field(&mut self, field: &RawField) -> (ok: bool) {
        match field.tag {
            1 => match fields::read_text(&field.value) {
                Some(x) => {
                    self.file_id = x;
                },
                None => {
                    return false;
                },
            },
            2 => match fields::read_number(&field.value) {
                Some(x) => {
                    self.chunk_index = #[verifier::truncate] (x as u32);
                },
                None => {
                    return false;
                },
            },
            3 => match fields::read_bytes(&field.value) {
                Some(x) => {
                    self.blake3 = x;
                },
                None => {
                    return false;
                },
            },
            4 => match fields::read_number(&field.value) {
                Some(x) => {
                    self.bytes_sent = x;
                },
                None => {
                    return false;
                },
            },
            _ => {},
        }
        true
    }
}

/// Asks for a sign of life.
#[derive(Debug)]
pub struct Ping {
    pub timestamp_ms: i64,
}

/// The model of a [`Ping`].
#[verifier::ext_equal]
pub struct PingView {
    pub timestamp_ms: i64,
}

impl View for Ping {
    type V = PingView;

    open spec fn view(&self) -> PingView {
        PingView {
            timestamp_ms: self.timestamp_ms,
        }
    }
}

impl PingView {
    /// The message once one more field was read.
    pub open spec fn step(self, field: Field) -> Option<PingView> {
        if field.tag == 1 {
            match fields::number_value(field.value) {
                Some(x) => Some((PingView { timestamp_ms: x as i64, ..self })),
                None => None,
            }
        } else {
            Some(self)
        }
    }
}

impl Model for PingView {
    open spec fn depth() -> nat {
        1
    }

    open spec fn empty() -> PingView {
        PingView {
            timestamp_ms: 0,
        }
    }

    open spec fn fields(self) -> Seq<Field> {
        fields::number_field(1, self.timestamp_ms as u64)
    }

    open spec fn stepper() -> spec_fn(PingView, Field) -> Option<PingView> {
        |message: PingView, field: Field| message.step(field)
    }

    proof fn lemma_plain(self) {
        let g1 = fields::number_field(1, self.timestamp_ms as u64);
        let p1 = g1;
    }

    proof fn lemma_merged(self) {
        let step = PingView::stepper();
        let s0 = PingView::empty();
        let g1 = fields::number_field(1, self.timestamp_ms as u64);
        let s1 = PingView { timestamp_ms: self.timestamp_ms, ..s0 };
        fields::lemma_signed(self.timestamp_ms);
        fields::lemma_merged_small(step, s0, g1);
        assert(fields::merged(step, s0, g1) == Some(s1));
        let p1 = g1;
        assert(s1 =~= self);
    }
}

impl Message for Ping {
    fn depth() -> (depth: usize) {
        1
    }

    fn empty() -> (message: Ping) {
        let message = Ping {
            timestamp_ms: 0,
        };
        assert(message@ =~= PingView::empty());
        message
    }

    fn encode_raw(&self, buf: &mut Vec<u8>) {
        let ghost start = buf@;
        fields::put_number(buf, 1, self.timestamp_ms as u64);
        let ghost g1 = fields::number_field(1, self@.timestamp_ms as u64);
        let ghost p1 = g1;
    }

    fn merge_field(&mut self, field: &RawField) -> (ok: bool) {
        match field.tag {
            1 => match fields::read_number(&field.value) {
                Some(x) => {
                    self.timestamp_ms = #[verifier::truncate] (x as i64);
                },
                None => {
                    return false;
                },
            },
            _ => {},
        }
        true
    }
}

/// Answers a `Ping`.
#[derive(Debug)]
pub struct Pong {
    pub timestamp_ms: i64,
}

/// The model of a [`Pong`].
#[verifier::ext_equal]
pub struct PongView {
    pub timestamp_ms: i64,
}

impl View for Pong {
    type V = PongView;

    open spec fn view(&self) -> PongView {
        PongView {
            timestamp_ms: self.timestamp_ms,
        }
    }
}

impl PongView {
    /// The message once one more field was read.
    pub open spec fn step(self, field: Field) -> Option<PongView> {
        if field.tag == 1 {
            match fields::number_value(field.value) {
                Some(x) => Some((PongView { timestamp_ms: x as i64, ..self })),
                None => None,
            }
        } else {
            Some(self)
        }
    }
}

impl Model for PongView {
    open spec fn depth() -> nat {
        1
    }

    open spec fn empty() -> PongView {
        PongView {
            timestamp_ms: 0,
        }
    }

    open spec fn fields(self) -> Seq<Field> {
        fields::number_field(1, self.timestamp_ms as u64)
    }

    open spec fn stepper() -> spec_fn(PongView, Field) -> Option<PongView> {
        |message: PongView, field: Field| message.step(field)
    }

    proof fn lemma_plain(self) {
        let g1 = fields::number_field(1, self.timestamp_ms as u64);
        let p1 = g1;
    }

    proof fn lemma_merged(self) {
        let step = PongView::stepper();
        let s0 = PongView::empty();
        let g1 = fields::number_field(1, self.timestamp_ms as u64);
        let s1 = PongView { timestamp_ms: self.timestamp_ms, ..s0 };
        fields::lemma_signed(self.timestamp_ms);
        fields::lemma_merged_small(step, s0, g1);
        assert(fields::merged(step, s0, g1) == Some(s1));
        let p1 = g1;
        assert(s1 =~= self);
    }
}

impl Message for Pong {
    fn depth() -> (depth: usize) {
        1
    }

    fn empty() -> (message: Pong) {
        let message = Pong {
            timestamp_ms: 0,
        };
        assert(message@ =~= PongView::empty());
        message
    }

    fn encode_raw(&self, buf: &mut Vec<u8>) {
        let ghost start = buf@;
        fields::put_number(buf, 1, self.timestamp_ms as u64);
        let ghost g1 = fields::number_field(1, self@.timestamp_ms as u64);
        let ghost p1 = g1;
    }

    fn merge_field(&mut self, field: &RawField) -> (ok: bool) {
        match field.tag {
            1 => match fields::read_number(&field.value) {
                Some(x) => {
                    self.timestamp_ms = #[verifier::truncate] (x as i64);
                },
                None => {
                    return false;
                },
            },
            _ => {},
        }
        true
    }
}

/// Gives a request up.
#[derive(Debug)]
pub struct Cancel {
    pub request_id: u64,
}

/// The model of a [`Cancel`].
#[verifier::ext_equal]
pub struct CancelView {
    pub request_id: u64,
}

impl View for Cancel {
    type V = CancelView;

    open spec fn view(&self) -> CancelView {
        CancelView {
            request_id: self.request_id,
        }
    }
}

impl CancelView {
    /// The message once one more field was read.
    pub open spec fn step(self, field: Field) -> Option<CancelView> {
        if field.tag == 1 {
            match fields::number_value(field.value) {
                Some(x) => Some((CancelView { request_id: x, ..self })),
                None => None,
            }
        } else {
            Some(self)
        }
    }
}

impl Model for CancelView {
    open spec fn depth() -> nat {
        1
    }

    open spec fn empty() -> CancelView {
        CancelView {
            request_id: 0,
        }
    }

    open spec fn fields(self) -> Seq<Field> {
        fields::number_field(1, self.request_id)
    }

    open spec fn stepper() -> spec_fn(CancelView, Field) -> Option<CancelView> {
        |message: CancelView, field: Field| message.step(field)
    }

    proof fn lemma_plain(self) {
        let g1 = fields::number_field(1, self.request_id);
        let p1 = g1;
    }

    proof fn lemma_merged(self) {
        let step = CancelView::stepper();
        let s0 = CancelView::empty();
        let g1 = fields::number_field(1, self.request_id);
        let s1 = CancelView { request_id: self.request_id, ..s0 };
        fields::lemma_merged_small(step, s0, g1);
        assert(fields::merged(step, s0, g1) == Some(s1));
        let p1 = g1;
        assert(s1 =~= self);
    }
}

impl Message for Cancel {
    fn depth() -> (depth: usize) {
        1
    }

    fn empty() -> (message: Cancel) {
        let message = Cancel {
            request_id: 0,
        };
        assert(message@ =~= CancelView::empty());
        message
    }

    fn encode_raw(&self, buf: &mut Vec<u8>) {
        let ghost start = buf@;
        fields::put_number(buf, 1, self.request_id);
        let ghost g1 = fields::number_field(1, self@.request_id);
        let ghost p1 = g1;
    }

    fn merge_field(&mut self, field: &RawField) -> (ok: bool) {
        match field.tag {
            1 => match fields::read_number(&field.value) {
                Some(x) => {
                    self.request_id = x;
                },
                None => {
                    return false;
                },
            },
            _ => {},
        }
        true
    }
}

/// Reports that a request failed.
#[derive(Debug)]
pub struct Error {
    pub code: u32,
    pub message: String,
    pub retryable: bool,
}

/// The model of a [`Error`].
#[verifier::ext_equal]
pub struct ErrorView {
    pub code: u32,
    pub message: Seq<char>,
    pub retryable: bool,
}

impl View for Error {
    type V = ErrorView;

    open spec fn view(&self) -> ErrorView {
        ErrorView {
            code: self.code,
            message: self.message@,
            retryable: self.retryable,
        }
    }
}

impl ErrorView {
    /// The message once one more field was read.
    pub open spec fn step(self, field: Field) -> Option<ErrorView> {
        if field.tag == 1 {
            match fields::number_value(field.value) {
                Some(x) => Some((ErrorView { code: x as u32, ..self })),
                None => None,
            }
        } else if field.tag == 2 {
            match fields::text_value(field.value) {
                Some(x) => Some((ErrorView { message: x, ..self })),
                None => None,
            }
        } else if field.tag == 3 {
            match fields::number_value(field.value) {
                Some(x) => Some((ErrorView { retryable: x != 0, ..self })),
                None => None,
            }
        } else {
            Some(self)
        }
    }
}

impl Model for ErrorView {
    open spec fn depth() -> nat {
        1
    }

    open spec fn empty() -> ErrorView {
        ErrorView {
            code: 0,
            message: Seq::empty(),
            retryable: false,
        }
    }

    open spec fn fields(self) -> Seq<Field> {
        fields::number_field(1, self.code as u64)
            + fields::text_field(2, self.message)
            + fields::flag_field(3, self.retryable)
    }

    open spec fn stepper() -> spec_fn(ErrorView, Field) -> Option<ErrorView> {
        |message: ErrorView, field: Field| message.step(field)
    }

    proof fn lemma_plain(self) {
        let g1 = fields::number_field(1, self.code as u64);
        let p1 = g1;
        let g2 = fields::text_field(2, self.message);
        let p2 = p1 + g2;
        fields::lemma_plain_concat(p1, g2);
        let g3 = fields::flag_field(3, self.retryable);
        let p3 = p2 + g3;
        fields::lemma_plain_concat(p2, g3);
    }

    proof fn lemma_merged(self) {
        let step = ErrorView::stepper();
        let s0 = ErrorView::empty();
        let g1 = fields::number_field(1, self.code as u64);
        let s1 = ErrorView { code: self.code, ..s0 };
        fields::lemma_merged_small(step, s0, g1);
        assert(fields::merged(step, s0, g1) == Some(s1));
        let p1 = g1;
        let g2 = fields::text_field(2, self.message);
        let s2 = ErrorView { message: self.message, ..s1 };
        fields::lemma_text_field(2, self.message);
        fields::lemma_merged_small(step, s1, g2);
        assert(fields::merged(step, s1, g2) == Some(s2));
        let p2 = p1 + g2;
        fields::lemma_merged_concat(step, s0, p1, g2);
        let g3 = fields::flag_field(3, self.retryable);
        let s3 = ErrorView { retryable: self.retryable, ..s2 };
        fields::lemma_merged_small(step, s2, g3);
        assert(fields::merged(step, s2, g3) == Some(s3));
        let p3 = p2 + g3;
        fields::lemma_merged_concat(step, s0, p2, g3);
        assert(s3 =~= self);
    }
}

impl Message for Error {
    fn depth() -> (depth: usize) {
        1
    }

    fn empty() -> (message: Error) {
        let message = Error {
            code: 0,
            message: String::new(),
            retryable: false,
        };
        assert(message@ =~= ErrorView::empty());
        message
    }

    fn encode_raw(&self, buf: &mut Vec<u8>) {
        let ghost start = buf@;
        fields::put_number(buf, 1, self.code as u64);
        let ghost g1 = fields::number_field(1, self@.code as u64);
        let ghost p1 = g1;
        fields::put_text(buf, 2, self.message.as_str());
        let ghost g2 = fields::text_field(2, self@.message);
        let ghost p2 = p1 + g2;
        proof {
            fields::lemma_append(start, p1, g2);
        }
        fields::put_flag(buf, 3, self.retryable);
        let ghost g3 = fields::flag_field(3, self@.retryable);
        let ghost p3 = p2 + g3;
        proof {
            fields::lemma_append(start, p2, g3);
        }
    }

    fn merge_field(&mut self, field: &RawField) -> (ok: bool) {
        match field.tag {
            1 => match fields::read_number(&field.value) {
                Some(x) => {
                    self.code = #[verifier::truncate] (x as u32);
                },
                None => {
                    return false;
                },
            },
            2 => match fields::read_text(&field.value) {
                Some(x) => {
                    self.message = x;
                },
                None => {
                    return false;
                },
            },
            3 => match fields::read_number(&field.value) {
                Some(x) => {
                    self.retryable = x != 0;
                },
                None => {
                    return false;
                },
            },
            _ => {},
        }
        true
    }
}

} // verus!
