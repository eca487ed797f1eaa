//! The messages that list shares and directories.

use vstd::prelude::*;

use crate::fields;
use crate::fields::{Field, FieldValue, RawField};
use crate::message;
use crate::message::{Message, Model};

verus! {

/// Asks for the shares of a device.
#[derive(Debug)]
pub struct ListSharesRequest {
}

/// The model of a [`ListSharesRequest`].
#[verifier::ext_equal]
pub struct ListSharesRequestView {
}

impl View for ListSharesRequest {
    type V = ListSharesRequestView;

    open spec fn view(&self) -> ListSharesRequestView {
        ListSharesRequestView {
        }
    }
}

impl ListSharesRequestView {
    /// The message once one more field was read.
    pub open spec fn step(self, field: Field) -> Option<ListSharesRequestView> {
        Some(self)
    }
}

impl Model for ListSharesRequestView {
    open spec fn depth() -> nat {
        1
    }

    open spec fn empty() -> ListSharesRequestView {
        ListSharesRequestView {  }
    }

    open spec fn fields(self) -> Seq<Field> {
        Seq::empty()
    }

    open spec fn stepper() -> spec_fn(ListSharesRequestView, Field) -> Option<ListSharesRequestView> {
        |message: ListSharesRequestView, field: Field| message.step(field)
    }

    proof fn lemma_plain(self) {
    }

    proof fn lemma_merged(self) {
    }
}

impl Message for ListSharesRequest {
    fn depth() -> (depth: usize) {
        1
    }

    fn empty() -> (message: ListSharesRequest) {
        ListSharesRequest {  }
    }

    fn encode_raw(&self, buf: &mut Vec<u8>) {
        let ghost start = buf@;
        assert(buf@ =~= start + message::encoded(self@));
    }

    fn merge_field(&mut self, field: &RawField) -> (ok: bool) {
        true
    }
}

/// A share as others see it.
#[derive(Debug)]
pub struct ShareInfo {
    pub id: String,
    pub name: String,
    pub enabled: bool,
}

/// The model of a [`ShareInfo`].
#[verifier::ext_equal]
pub struct ShareInfoView {
    pub id: Seq<char>,
    pub name: Seq<char>,
    pub enabled: bool,
}

impl View for ShareInfo {
    type V = ShareInfoView;

    open spec fn view(&self) -> ShareInfoView {
        ShareInfoView {
            id: self.id@,
            name: self.name@,
            enabled: self.enabled,
        }
    }
}

impl ShareInfoView {
    /// The message once one more field was read.
    pub open spec fn step(self, field: Field) -> Option<ShareInfoView> {
        if field.tag == 1 {
            match fields::text_value(field.value) {
                Some(x) => Some((ShareInfoView { id: x, ..self })),
                None => None,
            }
        } else if field.tag == 2 {
            match fields::text_value(field.value) {
                Some(x) => Some((ShareInfoView { name: x, ..self })),
                None => None,
            }
        } else if field.tag == 3 {
            match fields::number_value(field.value) {
                Some(x) => Some((ShareInfoView { enabled: x != 0, ..self })),
                None => None,
            }
        } else {
            Some(self)
        }
    }
}

impl Model for ShareInfoView {
    open spec fn depth() -> nat {
        2
    }

    open spec fn empty() -> ShareInfoView {
        ShareInfoView {
            id: Seq::empty(),
            name: Seq::empty(),
            enabled: false,
        }
    }

    open spec fn fields(self) -> Seq<Field> {
        fields::text_field(1, self.id)
            + fields::text_field(2, self.name)
            + fields::flag_field(3, self.enabled)
    }

    open spec fn stepper() -> spec_fn(ShareInfoView, Field) -> Option<ShareInfoView> {
        |message: ShareInfoView, field: Field| message.step(field)
    }

    proof fn lemma_plain(self) {
        let g1 = fields::text_field(1, self.id);
        let p1 = g1;
        let g2 = fields::text_field(2, self.name);
        let p2 = p1 + g2;
        fields::lemma_plain_concat(p1, g2);
        let g3 = fields::flag_field(3, self.enabled);
        let p3 = p2 + g3;
        fields::lemma_plain_concat(p2, g3);
    }

    proof fn lemma_merged(self) {
        let step = ShareInfoView::stepper();
        let s0 = ShareInfoView::empty();
        let g1 = fields::text_field(1, self.id);
        let s1 = ShareInfoView { id: self.id, ..s0 };
        fields::lemma_text_field(1, self.id);
        fields::lemma_merged_small(step, s0, g1);
        assert(fields::merged(step, s0, g1) == Some(s1));
        let p1 = g1;
        let g2 = fields::text_field(2, self.name);
        let s2 = ShareInfoView { name: self.name, ..s1 };
        fields::lemma_text_field(2, self.name);
        fields::lemma_merged_small(step, s1, g2);
        assert(fields::merged(step, s1, g2) == Some(s2));
        let p2 = p1 + g2;
        fields::lemma_merged_concat(step, s0, p1, g2);
        let g3 = fields::flag_field(3, self.enabled);
        let s3 = ShareInfoView { enabled: self.enabled, ..s2 };
        fields::lemma_merged_small(step, s2, g3);
        assert(fields::merged(step, s2, g3) == Some(s3));
        let p3 = p2 + g3;
        fields::lemma_merged_concat(step, s0, p2, g3);
        assert(s3 =~= self);
    }
}

impl Message for ShareInfo {
    fn depth() -> (depth: usize) {
        2
    }

    fn empty() -> (message: ShareInfo) {
        let message = ShareInfo {
            id: String::new(),
            name: String::new(),
            enabled: false,
        };
        assert(message@ =~= ShareInfoView::empty());
        message
    }

    fn encode_raw(&self, buf: &mut Vec<u8>) {
        let ghost start = buf@;
        fields::put_text(buf, 1, self.id.as_str());
        let ghost g1 = fields::text_field(1, self@.id);
        let ghost p1 = g1;
        fields::put_text(buf, 2, self.name.as_str());
        let ghost g2 = fields::text_field(2, self@.name);
        let ghost p2 = p1 + g2;
        proof {
            fields::lemma_append(start, p1, g2);
        }
        fields::put_flag(buf, 3, self.enabled);
        let ghost g3 = fields::flag_field(3, self@.enabled);
        let ghost p3 = p2 + g3;
        proof {
            fields::lemma_append(start, p2, g3);
        }
    }

    fn merge_field(&mut self, field: &RawField) -> (ok: bool) {
        match field.tag {
            1 => match fields::read_text(&field.value) {
                Some(x) => {
                    self.id = x;
                },
                None => {
                    return false;
                },
            },
            2 => match fields::read_text(&field.value) {
                Some(x) => {
                    self.name = x;
                },
                None => {
                    return false;
                },
            },
            3 => match fields::read_number(&field.value) {
                Some(x) => {
                    self.enabled = x != 0;
                },
                None => {
                    return false;
                },
            },
            _ => {},
        }
        true
    }
}

/// The shares of a device.
#[derive(Debug)]
pub struct ListSharesResponse {
    pub shares: Vec<ShareInfo>,
}

/// The model of a [`ListSharesResponse`].
#[verifier::ext_equal]
pub struct ListSharesResponseView {
    pub shares: Seq<ShareInfoView>,
}

impl View for ListSharesResponse {
    type V = ListSharesResponseView;

    open spec fn view(&self) -> ListSharesResponseView {
        ListSharesResponseView {
            shares: fields::views(self.shares@),
        }
    }
}

impl ListSharesResponseView {
    /// The message once one more field was read.
    pub open spec fn step(self, field: Field) -> Option<ListSharesResponseView> {
        if field.tag == 1 {
            match message::element_value::<ShareInfoView>(field.value) {
                Some(x) => Some((ListSharesResponseView { shares: self.shares.push(x), ..self })),
                None => None,
            }
        } else {
            Some(self)
        }
    }
}

impl ListSharesResponseView {
    proof fn lemma_shares_merged(self, items: Seq<ShareInfoView>)
        requires
            forall|i: int|
                0 <= i < items.len() ==> message::encoded(#[trigger] items[i]).len() <= u64::MAX,
        ensures
            fields::merged(
                ListSharesResponseView::stepper(),
                self,
                fields::repeated_fields(1, message::encoded_all(items)),
            ) == Some((ListSharesResponseView { shares: self.shares + items, ..self })),
        decreases items.len(),
    {
        let group = fields::repeated_fields(1, message::encoded_all(items));
        if items.len() == 0 {
            assert(self.shares + items =~= self.shares);
            assert(group =~= Seq::empty());
        } else {
            message::lemma_roundtrip(items[0]);
            let next = ListSharesResponseView { shares: self.shares.push(items[0]), ..self };
            assert(group[0] == (Field { tag: 1, value: FieldValue::Bytes(message::encoded(items[0])) }));
            assert(self.step(group[0]) == Some(next));
            assert(group.skip(1) =~= fields::repeated_fields(1, message::encoded_all(items.skip(1))));
            next.lemma_shares_merged(items.skip(1));
            assert(next.shares + items.skip(1) =~= self.shares + items);
        }
    }
}

impl Model for ListSharesResponseView {
    open spec fn depth() -> nat {
        1
    }

    open spec fn empty() -> ListSharesResponseView {
        ListSharesResponseView {
            shares: Seq::empty(),
        }
    }

    open spec fn fields(self) -> Seq<Field> {
        fields::repeated_fields(1, message::encoded_all(self.shares))
    }

    open spec fn stepper() -> spec_fn(ListSharesResponseView, Field) -> Option<ListSharesResponseView> {
        |message: ListSharesResponseView, field: Field| message.step(field)
    }

    proof fn lemma_plain(self) {
        let g1 = fields::repeated_fields(1, message::encoded_all(self.shares));
        let p1 = g1;
    }

    proof fn lemma_merged(self) {
        let step = ListSharesResponseView::stepper();
        let s0 = ListSharesResponseView::empty();
        let g1 = fields::repeated_fields(1, message::encoded_all(self.shares));
        let s1 = ListSharesResponseView { shares: self.shares, ..s0 };
        let before1 = Seq::<Field>::empty();
        assert forall|i: int| 0 <= i < self.shares.len() implies message::encoded(
            #[trigger] self.shares[i],
        ).len() <= u64::MAX by {
            let start = before1.len() as int;
            assert(self.fields().subrange(start, start + self.shares.len()) =~= g1);
            message::lemma_element_len(self.fields(), start, 1, self.shares, i);
        }
        s0.lemma_shares_merged(self.shares);
        assert(s0.shares + self.shares =~= self.shares);
        assert(fields::merged(step, s0, g1) == Some(s1));
        let p1 = g1;
        assert(s1 =~= self);
    }
}

impl Message for ListSharesResponse {
    fn depth() -> (depth: usize) {
        1
    }

    fn empty() -> (message: ListSharesResponse) {
        let message = ListSharesResponse {
            shares: Vec::new(),
        };
        assert(message@ =~= ListSharesResponseView::empty());
        message
    }

    fn encode_raw(&self, buf: &mut Vec<u8>) {
        let ghost start = buf@;
        message::put_messages(buf, 1, &self.shares);
        let ghost g1 = fields::repeated_fields(1, message::encoded_all(self@.shares));
        let ghost p1 = g1;
    }

    fn merge_field(&mut self, field: &RawField) -> (ok: bool) {
        let ghost before = self@;
        match field.tag {
            1 => match message::read_element::<ShareInfo>(&field.value) {
                Some(x) => {
                    self.shares.push(x);
                    assert(self@.shares =~= before.shares.push(x@));
                },
                None => {
                    return false;
                },
            },
            _ => {},
        }
        true
    }
}

/// Asks for a page of a directory.
#[derive(Debug)]
pub struct ListEntriesRequest {
    pub share_id: String,
    pub relative_path: String,
    pub offset: u32,
    pub limit: u32,
    pub query: String,
}

/// The model of a [`ListEntriesRequest`].
#[verifier::ext_equal]
pub struct ListEntriesRequestView {
    pub share_id: Seq<char>,
    pub relative_path: Seq<char>,
    pub offset: u32,
    pub limit: u32,
    pub query: Seq<char>,
}

impl View for ListEntriesRequest {
    type V = ListEntriesRequestView;

    open spec fn view(&self) -> ListEntriesRequestView {
        ListEntriesRequestView {
            share_id: self.share_id@,
            relative_path: self.relative_path@,
            offset: self.offset,
            limit: self.limit,
            query: self.query@,
        }
    }
}

impl ListEntriesRequestView {
    /// The message once one more field was read.
    pub open spec fn step(self, field: Field) -> Option<ListEntriesRequestView> {
        if field.tag == 1 {
            match fields::text_value(field.value) {
                Some(x) => Some((ListEntriesRequestView { share_id: x, ..self })),
                None => None,
            }
        } else if field.tag == 2 {
            match fields::text_value(field.value) {
                Some(x) => Some((ListEntriesRequestView { relative_path: x, ..self })),
                None => None,
            }
        } else if field.tag == 3 {
            match fields::number_value(field.value) {
                Some(x) => Some((ListEntriesRequestView { offset: x as u32, ..self })),
                None => None,
            }
        } else if field.tag == 4 {
            match fields::number_value(field.value) {
                Some(x) => Some((ListEntriesRequestView { limit: x as u32, ..self })),
                None => None,
            }
        } else if field.tag == 5 {
            match fields::text_value(field.value) {
                Some(x) => Some((ListEntriesRequestView { query: x, ..self })),
                None => None,
            }
        } else {
            Some(self)
        }
    }
}

impl Model for ListEntriesRequestView {
    open spec fn depth() -> nat {
        1
    }

    open spec fn empty() -> ListEntriesRequestView {
        ListEntriesRequestView {
            share_id: Seq::empty(),
            relative_path: Seq::empty(),
            offset: 0,
            limit: 0,
            query: Seq::empty(),
        }
    }

    open spec fn fields(self) -> Seq<Field> {
        fields::text_field(1, self.share_id)
            + fields::text_field(2, self.relative_path)
            + fields::number_field(3, self.offset as u64)
            + fields::number_field(4, self.limit as u64)
            + fields::text_field(5, self.query)
    }

    open spec fn stepper() -> spec_fn(ListEntriesRequestView, Field) -> Option<ListEntriesRequestView> {
        |message: ListEntriesRequestView, field: Field| message.step(field)
    }

    proof fn lemma_plain(self) {
        let g1 = fields::text_field(1, self.share_id);
        let p1 = g1;
        let g2 = fields::text_field(2, self.relative_path);
        let p2 = p1 + g2;
        fields::lemma_plain_concat(p1, g2);
        let g3 = fields::number_field(3, self.offset as u64);
        let p3 = p2 + g3;
        fields::lemma_plain_concat(p2, g3);
        let g4 = fields::number_field(4, self.limit as u64);
        let p4 = p3 + g4;
        fields::lemma_plain_concat(p3, g4);
        let g5 = fields::text_field(5, self.query);
        let p5 = p4 + g5;
        fields::lemma_plain_concat(p4, g5);
    }

    proof fn lemma_merged(self) {
        let step = ListEntriesRequestView::stepper();
        let s0 = ListEntriesRequestView::empty();
        let g1 = fields::text_field(1, self.share_id);
        let s1 = ListEntriesRequestView { share_id: self.share_id, ..s0 };
        fields::lemma_text_field(1, self.share_id);
        fields::lemma_merged_small(step, s0, g1);
        assert(fields::merged(step, s0, g1) == Some(s1));
        let p1 = g1;
        let g2 = fields::text_field(2, self.relative_path);
        let s2 = ListEntriesRequestView { relative_path: self.relative_path, ..s1 };
        fields::lemma_text_field(2, self.relative_path);
        fields::lemma_merged_small(step, s1, g2);
        assert(fields::merged(step, s1, g2) == Some(s2));
        let p2 = p1 + g2;
        fields::lemma_merged_concat(step, s0, p1, g2);
        let g3 = fields::number_field(3, self.offset as u64);
        let s3 = ListEntriesRequestView { offset: self.offset, ..s2 };
        fields::lemma_merged_small(step, s2, g3);
        assert(fields::merged(step, s2, g3) == Some(s3));
        let p3 = p2 + g3;
        fields::lemma_merged_concat(step, s0, p2, g3);
        let g4 = fields::number_field(4, self.limit as u64);
        let s4 = ListEntriesRequestView { limit: self.limit, ..s3 };
        fields::lemma_merged_small(step, s3, g4);
        assert(fields::merged(step, s3, g4) == Some(s4));
        let p4 = p3 + g4;
        fields::lemma_merged_concat(step, s0, p3, g4);
        let g5 = fields::text_field(5, self.query);
        let s5 = ListEntriesRequestView { query: self.query, ..s4 };
        fields::lemma_text_field(5, self.query);
        fields::lemma_merged_small(step, s4, g5);
        assert(fields::merged(step, s4, g5) == Some(s5));
        let p5 = p4 + g5;
        fields::lemma_merged_concat(step, s0, p4, g5);
        assert(s5 =~= self);
    }
}

impl Message for ListEntriesRequest {
    fn depth() -> (depth: usize) {
        1
    }

    fn empty() -> (message: ListEntriesRequest) {
        let message = ListEntriesRequest {
            share_id: String::new(),
            relative_path: String::new(),
            offset: 0,
            limit: 0,
            query: String::new(),
        };
        assert(message@ =~= ListEntriesRequestView::empty());
        message
    }

    fn encode_raw(&self, buf: &mut Vec<u8>) {
        let ghost start = buf@;
        fields::put_text(buf, 1, self.share_id.as_str());
        let ghost g1 = fields::text_field(1, self@.share_id);
        let ghost p1 = g1;
        fields::put_text(buf, 2, self.relative_path.as_str());
        let ghost g2 = fields::text_field(2, self@.relative_path);
        let ghost p2 = p1 + g2;
        proof {
            fields::lemma_append(start, p1, g2);
        }
        fields::put_number(buf, 3, self.offset as u64);
        let ghost g3 = fields::number_field(3, self@.offset as u64);
        let ghost p3 = p2 + g3;
        proof {
            fields::lemma_append(start, p2, g3);
        }
        fields::put_number(buf, 4, self.limit as u64);
        let ghost g4 = fields::number_field(4, self@.limit as u64);
        let ghost p4 = p3 + g4;
        proof {
            fields::lemma_append(start, p3, g4);
        }
        fields::put_text(buf, 5, self.query.as_str());
        let ghost g5 = fields::text_field(5, self@.query);
        let ghost p5 = p4 + g5;
        proof {
            fields::lemma_append(start, p4, g5);
        }
    }

    fn merge_field(&mut self, field: &RawField) -> (ok: bool) {
        match field.tag {
            1 => match fields::read_text(&field.value) {
                Some(x) => {
                    self.share_id = x;
                },
                None => {
                    return false;
                },
            },
            2 => match fields::read_text(&field.value) {
                Some(x) => {
                    self.relative_path = x;
                },
                None => {
                    return false;
                },
            },
            3 => match fields::read_number(&field.value) {
                Some(x) => {
                    self.offset = #[verifier::truncate] (x as u32);
                },
                None => {
                    return false;
                },
            },
            4 => match fields::read_number(&field.value) {
                Some(x) => {
                    self.limit = #[verifier::truncate] (x as u32);
                },
                None => {
                    return false;
                },
            },
            5 => match fields::read_text(&field.value) {
                Some(x) => {
                    self.query = x;
                },
                None => {
                    return false;
                },
            },
            _ => {},
        }
        true
    }
}

/// A directory entry.
#[derive(Debug)]
pub struct Entry {
    pub id: String,
    /// The name as the file system has it.
    pub raw_name: Vec<u8>,
    pub display_name: String,
    pub relative_path: String,
    pub is_dir: bool,
    pub size: u64,
    pub modified_ms: i64,
}

/// The model of a [`Entry`].
#[verifier::ext_equal]
pub struct EntryView {
    pub id: Seq<char>,
    pub raw_name: Seq<u8>,
    pub display_name: Seq<char>,
    pub relative_path: Seq<char>,
    pub is_dir: bool,
    pub size: u64,
    pub modified_ms: i64,
}

impl View for Entry {
    type V = EntryView;

    open spec fn view(&self) -> EntryView {
        EntryView {
            id: self.id@,
            raw_name: self.raw_name@,
            display_name: self.display_name@,
            relative_path: self.relative_path@,
            is_dir: self.is_dir,
            size: self.size,
            modified_ms: self.modified_ms,
        }
    }
}

impl EntryView {
    /// The message once one more field was read.
    pub open spec fn step(self, field: Field) -> Option<EntryView> {
        if field.tag == 1 {
            match fields::text_value(field.value) {
                Some(x) => Some((EntryView { id: x, ..self })),
                None => None,
            }
        } else if field.tag == 2 {
            match fields::bytes_value(field.value) {
                Some(x) => Some((EntryView { raw_name: x, ..self })),
                None => None,
            }
        } else if field.tag == 3 {
            match fields::text_value(field.value) {
                Some(x) => Some((EntryView { display_name: x, ..self })),
                None => None,
            }
        } else if field.tag == 4 {
            match fields::text_value(field.value) {
                Some(x) => Some((EntryView { relative_path: x, ..self })),
                None => None,
            }
        } else if field.tag == 5 {
            match fields::number_value(field.value) {
                Some(x) => Some((EntryView { is_dir: x != 0, ..self })),
                None => None,
            }
        } else if field.tag == 6 {
            match fields::number_value(field.value) {
                Some(x) => Some((EntryView { size: x, ..self })),
                None => None,
            }
        } else if field.tag == 7 {
            match fields::number_value(field.value) {
                Some(x) => Some((EntryView { modified_ms: x as i64, ..self })),
                None => None,
            }
        } else {
            Some(self)
        }
    }
}

impl Model for EntryView {
    open spec fn depth() -> nat {
        2
    }

    open spec fn empty() -> EntryView {
        EntryView {
            id: Seq::empty(),
            raw_name: Seq::empty(),
            display_name: Seq::empty(),
            relative_path: Seq::empty(),
            is_dir: false,
            size: 0,
            modified_ms: 0,
        }
    }

    open spec fn fields(self) -> Seq<Field> {
        fields::text_field(1, self.id)
            + fields::bytes_field(2, self.raw_name)
            + fields::text_field(3, self.display_name)
            + fields::text_field(4, self.relative_path)
            + fields::flag_field(5, self.is_dir)
            + fields::number_field(6, self.size)
            + fields::number_field(7, self.modified_ms as u64)
    }

    open spec fn stepper() -> spec_fn(EntryView, Field) -> Option<EntryView> {
        |message: EntryView, field: Field| message.step(field)
    }

    proof fn lemma_plain(self) {
        let g1 = fields::text_field(1, self.id);
        let p1 = g1;
        let g2 = fields::bytes_field(2, self.raw_name);
        let p2 = p1 + g2;
        fields::lemma_plain_concat(p1, g2);
        let g3 = fields::text_field(3, self.display_name);
        let p3 = p2 + g3;
        fields::lemma_plain_concat(p2, g3);
        let g4 = fields::text_field(4, self.relative_path);
        let p4 = p3 + g4;
        fields::lemma_plain_concat(p3, g4);
        let g5 = fields::flag_field(5, self.is_dir);
        let p5 = p4 + g5;
        fields::lemma_plain_concat(p4, g5);
        let g6 = fields::number_field(6, self.size);
        let p6 = p5 + g6;
        fields::lemma_plain_concat(p5, g6);
        let g7 = fields::number_field(7, self.modified_ms as u64);
        let p7 = p6 + g7;
        fields::lemma_plain_concat(p6, g7);
    }

    proof fn lemma_merged(self) {
        let step = EntryView::stepper();
        let s0 = EntryView::empty();
        let g1 = fields::text_field(1, self.id);
        let s1 = EntryView { id: self.id, ..s0 };
        fields::lemma_text_field(1, self.id);
        fields::lemma_merged_small(step, s0, g1);
        assert(fields::merged(step, s0, g1) == Some(s1));
        let p1 = g1;
        let g2 = fields::bytes_field(2, self.raw_name);
        let s2 = EntryView { raw_name: self.raw_name, ..s1 };
        fields::lemma_bytes_field(2, self.raw_name);
        fields::lemma_merged_small(step, s1, g2);
        assert(fields::merged(step, s1, g2) == Some(s2));
        let p2 = p1 + g2;
        fields::lemma_merged_concat(step, s0, p1, g2);
        let g3 = fields::text_field(3, self.display_name);
        let s3 = EntryView { display_name: self.display_name, ..s2 };
        fields::lemma_text_field(3, self.display_name);
        fields::lemma_merged_small(step, s2, g3);
        assert(fields::merged(step, s2, g3) == Some(s3));
        let p3 = p2 + g3;
        fields::lemma_merged_concat(step, s0, p2, g3);
        let g4 = fields::text_field(4, self.relative_path);
        let s4 = EntryView { relative_path: self.relative_path, ..s3 };
        fields::lemma_text_field(4, self.relative_path);
        fields::lemma_merged_small(step, s3, g4);
        assert(fields::merged(step, s3, g4) == Some(s4));
        let p4 = p3 + g4;
        fields::lemma_merged_concat(step, s0, p3, g4);
        let g5 = fields::flag_field(5, self.is_dir);
        let s5 = EntryView { is_dir: self.is_dir, ..s4 };
        fields::lemma_merged_small(step, s4, g5);
        assert(fields::merged(step, s4, g5) == Some(s5));
        let p5 = p4 + g5;
        fields::lemma_merged_concat(step, s0, p4, g5);
        let g6 = fields::number_field(6, self.size);
        let s6 = EntryView { size: self.size, ..s5 };
        fields::lemma_merged_small(step, s5, g6);
        assert(fields::merged(step, s5, g6) == Some(s6));
        let p6 = p5 + g6;
        fields::lemma_merged_concat(step, s0, p5, g6);
        let g7 = fields::number_field(7, self.modified_ms as u64);
        let s7 = EntryView { modified_ms: self.modified_ms, ..s6 };
        fields::lemma_signed(self.modified_ms);
        fields::lemma_merged_small(step, s6, g7);
        assert(fields::merged(step, s6, g7) == Some(s7));
        let p7 = p6 + g7;
        fields::lemma_merged_concat(step, s0, p6, g7);
        assert(s7 =~= self);
    }
}

impl Message for Entry {
    fn depth() -> (depth: usize) {
        2
    }

    fn empty() -> (message: Entry) {
        let message = Entry {
            id: String::new(),
            raw_name: Vec::new(),
            display_name: String::new(),
            relative_path: String::new(),
            is_dir: false,
            size: 0,
            modified_ms: 0,
        };
        assert(message@ =~= EntryView::empty());
        message
    }

    fn encode_raw(&self, buf: &mut Vec<u8>) {
        let ghost start = buf@;
        fields::put_text(buf, 1, self.id.as_str());
        let ghost g1 = fields::text_field(1, self@.id);
        let ghost p1 = g1;
        fields::put_bytes(buf, 2, self.raw_name.as_slice());
        let ghost g2 = fields::bytes_field(2, self@.raw_name);
        let ghost p2 = p1 + g2;
        proof {
            fields::lemma_append(start, p1, g2);
        }
        fields::put_text(buf, 3, self.display_name.as_str());
        let ghost g3 = fields::text_field(3, self@.display_name);
        let ghost p3 = p2 + g3;
        proof {
            fields::lemma_append(start, p2, g3);
        }
        fields::put_text(buf, 4, self.relative_path.as_str());
        let ghost g4 = fields::text_field(4, self@.relative_path);
        let ghost p4 = p3 + g4;
        proof {
            fields::lemma_append(start, p3, g4);
        }
        fields::put_flag(buf, 5, self.is_dir);
        let ghost g5 = fields::flag_field(5, self@.is_dir);
        let ghost p5 = p4 + g5;
        proof {
            fields::lemma_append(start, p4, g5);
        }
        fields::put_number(buf, 6, self.size);
        let ghost g6 = fields::number_field(6, self@.size);
        let ghost p6 = p5 + g6;
        proof {
            fields::lemma_append(start, p5, g6);
        }
        fields::put_number(buf, 7, self.modified_ms as u64);
        let ghost g7 = fields::number_field(7, self@.modified_ms as u64);
        let ghost p7 = p6 + g7;
        proof {
            fields::lemma_append(start, p6, g7);
        }
    }

    fn merge_field(&mut self, field: &RawField) -> (ok: bool) {
        match field.tag {
            1 => match fields::read_text(&field.value) {
                Some(x) => {
                    self.id = x;
                },
                None => {
                    return false;
                },
            },
            2 => match fields::read_bytes(&field.value) {
                Some(x) => {
                    self.raw_name = x;
                },
                None => {
                    return false;
                },
            },
            3 => match fields::read_text(&field.value) {
                Some(x) => {
                    self.display_name = x;
                },
                None => {
                    return false;
                },
            },
            4 => match fields::read_text(&field.value) {
                Some(x) => {
                    self.relative_path = x;
                },
                None => {
                    return false;
                },
            },
            5 => match fields::read_number(&field.value) {
                Some(x) => {
                    self.is_dir = x != 0;
                },
                None => {
                    return false;
                },
            },
            6 => match fields::read_number(&field.value) {
                Some(x) => {
                    self.size = x;
                },
                None => {
                    return false;
                },
            },
            7 => match fields::read_number(&field.value) {
                Some(x) => {
                    self.modified_ms = #[verifier::truncate] (x as i64);
                },
                None => {
                    return false;
                },
            },
            _ => {},
        }
        true
    }
}

impl Clone for Entry {
    fn clone(&self) -> (copy: Entry)
        ensures
            copy@ == self@,
    {
        let copy = Entry {
            id: self.id.clone(),
            raw_name: fields::copy_bytes(self.raw_name.as_slice()),
            display_name: self.display_name.clone(),
            relative_path: self.relative_path.clone(),
            is_dir: self.is_dir,
            size: self.size,
            modified_ms: self.modified_ms,
        };
        assert(copy@ =~= self@);
        copy
    }
}

/// A page of a directory.
#[derive(Debug)]
pub struct ListEntriesResponse {
    pub entries: Vec<Entry>,
    pub has_more: bool,
    pub next_offset: u32,
}

/// The model of a [`ListEntriesResponse`].
#[verifier::ext_equal]
pub struct ListEntriesResponseView {
    pub entries: Seq<EntryView>,
    pub has_more: bool,
    pub next_offset: u32,
}

impl View for ListEntriesResponse {
    type V = ListEntriesResponseView;

    open spec fn view(&self) -> ListEntriesResponseView {
        ListEntriesResponseView {
            entries: fields::views(self.entries@),
            has_more: self.has_more,
            next_offset: self.next_offset,
        }
    }
}

impl ListEntriesResponseView {
    /// The message once one more field was read.
    pub open spec fn step(self, field: Field) -> Option<ListEntriesResponseView> {
        if field.tag == 1 {
            match message::element_value::<EntryView>(field.value) {
                Some(x) => Some((ListEntriesResponseView { entries: self.entries.push(x), ..self })),
                None => None,
            }
        } else if field.tag == 2 {
            match fields::number_value(field.value) {
                Some(x) => Some((ListEntriesResponseView { has_more: x != 0, ..self })),
                None => None,
            }
        } else if field.tag == 3 {
            match fields::number_value(field.value) {
                Some(x) => Some((ListEntriesResponseView { next_offset: x as u32, ..self })),
                None => None,
            }
        } else {
            Some(self)
        }
    }
}

impl ListEntriesResponseView {
    proof fn lemma_entries_merged(self, items: Seq<EntryView>)
        requires
            forall|i: int|
                0 <= i < items.len() ==> message::encoded(#[trigger] items[i]).len() <= u64::MAX,
        ensures
            fields::merged(
                ListEntriesResponseView::stepper(),
                self,
                fields::repeated_fields(1, message::encoded_all(items)),
            ) == Some((ListEntriesResponseView { entries: self.entries + items, ..self })),
        decreases items.len(),
    {
        let group = fields::repeated_fields(1, message::encoded_all(items));
        if items.len() == 0 {
            assert(self.entries + items =~= self.entries);
            assert(group =~= Seq::empty());
        } else {
            message::lemma_roundtrip(items[0]);
            let next = ListEntriesResponseView { entries: self.entries.push(items[0]), ..self };
            assert(group[0] == (Field { tag: 1, value: FieldValue::Bytes(message::encoded(items[0])) }));
            assert(self.step(group[0]) == Some(next));
            assert(group.skip(1) =~= fields::repeated_fields(1, message::encoded_all(items.skip(1))));
            next.lemma_entries_merged(items.skip(1));
            assert(next.entries + items.skip(1) =~= self.entries + items);
        }
    }
}

impl Model for ListEntriesResponseView {
    open spec fn depth() -> nat {
        1
    }

    open spec fn empty() -> ListEntriesResponseView {
        ListEntriesResponseView {
            entries: Seq::empty(),
            has_more: false,
            next_offset: 0,
        }
    }

    open spec fn fields(self) -> Seq<Field> {
        fields::repeated_fields(1, message::encoded_all(self.entries))
            + fields::flag_field(2, self.has_more)
            + fields::number_field(3, self.next_offset as u64)
    }

    open spec fn stepper() -> spec_fn(ListEntriesResponseView, Field) -> Option<ListEntriesResponseView> {
        |message: ListEntriesResponseView, field: Field| message.step(field)
    }

    proof fn lemma_plain(self) {
        let g1 = fields::repeated_fields(1, message::encoded_all(self.entries));
        let p1 = g1;
        let g2 = fields::flag_field(2, self.has_more);
        let p2 = p1 + g2;
        fields::lemma_plain_concat(p1, g2);
        let g3 = fields::number_field(3, self.next_offset as u64);
        let p3 = p2 + g3;
        fields::lemma_plain_concat(p2, g3);
    }

    proof fn lemma_merged(self) {
        let step = ListEntriesResponseView::stepper();
        let s0 = ListEntriesResponseView::empty();
        let g1 = fields::repeated_fields(1, message::encoded_all(self.entries));
        let s1 = ListEntriesResponseView { entries: self.entries, ..s0 };
        let before1 = Seq::<Field>::empty();
        assert forall|i: int| 0 <= i < self.entries.len() implies message::encoded(
            #[trigger] self.entries[i],
        ).len() <= u64::MAX by {
            let start = before1.len() as int;
            assert(self.fields().subrange(start, start + self.entries.len()) =~= g1);
            message::lemma_element_len(self.fields(), start, 1, self.entries, i);
        }
        s0.lemma_entries_merged(self.entries);
        assert(s0.entries + self.entries =~= self.entries);
        assert(fields::merged(step, s0, g1) == Some(s1));
        let p1 = g1;
        let g2 = fields::flag_field(2, self.has_more);
        let s2 = ListEntriesResponseView { has_more: self.has_more, ..s1 };
        fields::lemma_merged_small(step, s1, g2);
        assert(fields::merged(step, s1, g2) == Some(s2));
        let p2 = p1 + g2;
        fields::lemma_merged_concat(step, s0, p1, g2);
        let g3 = fields::number_field(3, self.next_offset as u64);
        let s3 = ListEntriesResponseView { next_offset: self.next_offset, ..s2 };
        fields::lemma_merged_small(step, s2, g3);
        assert(fields::merged(step, s2, g3) == Some(s3));
        let p3 = p2 + g3;
        fields::lemma_merged_concat(step, s0, p2, g3);
        assert(s3 =~= self);
    }
}

impl Message for ListEntriesResponse {
    fn depth() -> (depth: usize) {
        1
    }

    fn empty() -> (message: ListEntriesResponse) {
        let message = ListEntriesResponse {
            entries: Vec::new(),
            has_more: false,
            next_offset: 0,
        };
        assert(message@ =~= ListEntriesResponseView::empty());
        message
    }

    fn encode_raw(&self, buf: &mut Vec<u8>) {
        let ghost start = buf@;
        message::put_messages(buf, 1, &self.entries);
        let ghost g1 = fields::repeated_fields(1, message::encoded_all(self@.entries));
        let ghost p1 = g1;
        fields::put_flag(buf, 2, self.has_more);
        let ghost g2 = fields::flag_field(2, self@.has_more);
        let ghost p2 = p1 + g2;
        proof {
            fields::lemma_append(start, p1, g2);
        }
        fields::put_number(buf, 3, self.next_offset as u64);
        let ghost g3 = fields::number_field(3, self@.next_offset as u64);
        let ghost p3 = p2 + g3;
        proof {
            fields::lemma_append(start, p2, g3);
        }
    }

    fn merge_field(&mut self, field: &RawField) -> (ok: bool) {
        let ghost before = self@;
        match field.tag {
            1 => match message::read_element::<Entry>(&field.value) {
                Some(x) => {
                    self.entries.push(x);
                    assert(self@.entries =~= before.entries.push(x@));
                },
                None => {
                    return false;
                },
            },
            2 => match fields::read_number(&field.value) {
                Some(x) => {
                    self.has_more = x != 0;
                },
                None => {
                    return false;
                },
            },
            3 => match fields::read_number(&field.value) {
                Some(x) => {
                    self.next_offset = #[verifier::truncate] (x as u32);
                },
                None => {
                    return false;
                },
            },
            _ => {},
        }
        true
    }
}

} // verus!
