//! What all messages have in common: a model that is built up field by field,
//! and bytes that give the model back.

use vstd::prelude::*;

use crate::fields;
use crate::fields::{Field, FieldValue, RawField, RawValue};

verus! {

/// The model of a kind of message.
pub trait Model: Sized {
    /// In how many messages the message lies.
    spec fn depth() -> nat;

    /// The message with every field left out.
    spec fn empty() -> Self;

    /// The fields that carry the message.
    spec fn fields(self) -> Seq<Field>;

    /// What a message becomes once one more field was read.
    spec fn stepper() -> spec_fn(Self, Field) -> Option<Self>;

    /// The fields of a message can be written.
    proof fn lemma_plain(self)
        ensures
            fields::plain(self.fields()),
    ;

    /// Taking in the fields of a message gives the message.
    proof fn lemma_merged(self)
        requires
            fields::message_bytes(self.fields()).len() <= u64::MAX,
        ensures
            fields::merged(Self::stepper(), Self::empty(), self.fields()) == Some(self),
    ;
}

/// The bytes of a message.
pub open spec fn encoded<M: Model>(message: M) -> Seq<u8> {
    fields::message_bytes(message.fields())
}

pub open spec fn encoded_all<M: Model>(messages: Seq<M>) -> Seq<Seq<u8>> {
    messages.map_values(|message: M| encoded(message))
}

/// The message once the fields in `data` were read too.
pub open spec fn merged_with<M: Model>(message: M, data: Seq<u8>) -> Option<M> {
    fields::merged_from(M::depth(), M::stepper(), message, data)
}

/// The message that `data` holds.
pub open spec fn decoded<M: Model>(data: Seq<u8>) -> Option<M> {
    merged_with(M::empty(), data)
}

/// The message that a field holds as an element of a list.
pub open spec fn element_value<M: Model>(value: FieldValue) -> Option<M> {
    match value {
        FieldValue::Bytes(data) => decoded(data),
        _ => None,
    }
}

/// A message that was written is read back.
pub proof fn lemma_roundtrip<M: Model>(message: M)
    requires
        encoded(message).len() <= u64::MAX,
    ensures
        decoded::<M>(encoded(message)) == Some(message),
{
    message.lemma_plain();
    fields::lemma_writable(message.fields());
    fields::lemma_message_roundtrip(M::depth(), message.fields());
    message.lemma_merged();
}

/// An element of a list is no longer than the message that the list belongs
/// to, when `before` fields stand ahead of the list.
pub proof fn lemma_element_len<M: Model>(
    list: Seq<Field>,
    before: int,
    tag: u32,
    items: Seq<M>,
    i: int,
)
    requires
        0 <= before,
        0 <= i < items.len(),
        before + items.len() <= list.len(),
        list.subrange(before, before + items.len()) == fields::repeated_fields(
            tag,
            encoded_all(items),
        ),
    ensures
        encoded(items[i]).len() <= fields::message_bytes(list).len(),
{
    let group = list.subrange(before, before + items.len());
    assert(group[i].value == FieldValue::Bytes(encoded(items[i])));
    assert(list[before + i] == group[i]);
    fields::lemma_part_len(list, before + i);
}

/// A kind of message.
pub trait Message: View + Sized where <Self as View>::V: Model {
    /// In how many messages the message lies.
    fn depth() -> (depth: usize)
        ensures
            depth == <Self as View>::V::depth(),
    ;

    /// The message with every field left out.
    fn empty() -> (message: Self)
        ensures
            message@ == <Self as View>::V::empty(),
    ;

    /// Appends the bytes of the message.
    fn encode_raw(&self, buf: &mut Vec<u8>)
        ensures
            final(buf)@ == old(buf)@ + encoded(self@),
    ;

    /// Takes one field in; `false` where it cannot be read.
    fn merge_field(&mut self, field: &RawField) -> (ok: bool)
        ensures
            match (<Self as View>::V::stepper())(old(self)@, field@) {
                Some(message) => ok && final(self)@ == message,
                None => !ok,
            },
    ;
}

/// The bytes of a message.
pub fn encode<M: Message>(message: &M) -> (data: Vec<u8>) where <M as View>::V: Model
    ensures
        data@ == encoded(message@),
{
    let mut data: Vec<u8> = Vec::new();
    message.encode_raw(&mut data);
    assert(data@ =~= encoded(message@));
    data
}

/// The number of bytes of a message.
pub fn encoded_len<M: Message>(message: &M) -> (len: usize) where <M as View>::V: Model
    ensures
        len == encoded(message@).len(),
{
    encode(message).len()
}

/// Appends each message as an element of a list.
pub fn put_messages<M: Message>(buf: &mut Vec<u8>, tag: u32, messages: &Vec<M>) where
    <M as View>::V: Model,

    requires
        0 < tag < 0x2000_0000,
    ensures
        final(buf)@ == old(buf)@ + fields::message_bytes(
            fields::repeated_fields(tag, encoded_all(fields::views(messages@))),
        ),
{
    let ghost start = buf@;
    let ghost items = encoded_all(fields::views(messages@));
    let mut i: usize = 0;
    proof {
        fields::lemma_repeated_none(start, tag, items);
    }
    while i < messages.len()
        invariant
            i <= messages@.len(),
            0 < tag < 0x2000_0000,
            items == encoded_all(fields::views(messages@)),
            buf@ == start + fields::message_bytes(
                fields::repeated_fields(tag, items.take(i as int)),
            ),
        decreases messages@.len() - i,
    {
        let data = encode(&messages[i]);
        fields::put_message(buf, tag, data.as_slice());
        proof {
            assert(items[i as int] == data@);
            fields::lemma_repeated_next(start, tag, items, i as int);
        }
        i += 1;
    }
    assert(items.take(i as int) =~= items);
}

/// Takes the fields in `data` in; `false` where they cannot be read.
pub fn merge<M: Message>(message: &mut M, data: &[u8]) -> (ok: bool) where <M as View>::V: Model
    ensures
        match merged_with(old(message)@, data@) {
            Some(model) => ok && final(message)@ == model,
            None => !ok,
        },
{
    let list = match fields::read_message(M::depth(), data) {
        Some(list) => list,
        None => {
            return false;
        },
    };
    let ghost before = message@;
    let ghost step = <M as View>::V::stepper();
    let ghost model = fields::raw_fields(list@);
    let mut i: usize = 0;
    assert(model.skip(0) =~= model);
    while i < list.len()
        invariant
            i <= list@.len(),
            before == old(message)@,
            step == <M as View>::V::stepper(),
            model == fields::raw_fields(list@),
            merged_with(before, data@) == fields::merged(step, before, model),
            fields::merged(step, before, model) == fields::merged(
                step,
                message@,
                model.skip(i as int),
            ),
        decreases list@.len() - i,
    {
        proof {
            fields::lemma_merged_next(step, message@, model, i as int);
        }
        if !message.merge_field(&list[i]) {
            return false;
        }
        i += 1;
    }
    true
}

/// Reads a message.
pub fn decode<M: Message>(data: &[u8]) -> (message: Option<M>) where <M as View>::V: Model
    ensures
        match decoded::<<M as View>::V>(data@) {
            Some(model) => message matches Some(m) && m@ == model,
            None => message is None,
        },
{
    let mut message = M::empty();
    if merge(&mut message, data) {
        Some(message)
    } else {
        None
    }
}

/// Reads a message that is an element of a list.
pub fn read_element<M: Message>(value: &RawValue) -> (message: Option<M>) where
    <M as View>::V: Model,

    ensures
        match element_value::<<M as View>::V>(fields::raw_value(*value)) {
            Some(model) => message matches Some(m) && m@ == model,
            None => message is None,
        },
{
    match value {
        RawValue::Bytes(data) => decode(data.as_slice()),
        _ => None,
    }
}

} // verus!
