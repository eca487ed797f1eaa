//! A control message as a list of numbered fields, and the bytes of such a
//! list.

use vstd::prelude::*;

use crate::outside::protobuf;
use crate::outside::protobuf::{decode_varint, encode_varint, skip_field};
use crate::outside::strings::string_from_utf8;

verus! {

/// What a field holds.
#[verifier::ext_equal]
pub enum FieldValue {
    Number(u64),
    Bytes(Seq<u8>),
    /// A kind of value that no message of this library uses.
    Foreign,
}

/// A field of a message.
#[verifier::ext_equal]
pub struct Field {
    pub tag: u32,
    pub value: FieldValue,
}

/// What a field that was read holds.
pub enum RawValue {
    Number(u64),
    Bytes(Vec<u8>),
    Foreign,
}

/// A field that was read.
pub struct RawField {
    pub tag: u32,
    pub value: RawValue,
}

impl View for RawField {
    type V = Field;

    open spec fn view(&self) -> Field {
        Field {
            tag: self.tag,
            value: raw_value(self.value),
        }
    }
}

/// The model of a list of fields that were read.
pub open spec fn raw_fields(fields: Seq<RawField>) -> Seq<Field> {
    fields.map_values(|field: RawField| field@)
}

/// The number that announces a field: its tag and the kind of its value.
pub open spec fn key(tag: u32, kind: nat) -> nat {
    tag as nat * 8 + kind
}

/// The bytes of a field.
pub open spec fn field_bytes(field: Field) -> Seq<u8> {
    match field.value {
        FieldValue::Number(n) => protobuf::varint(key(field.tag, 0)) + protobuf::varint(n as nat),
        FieldValue::Bytes(bytes) => protobuf::varint(key(field.tag, 2)) + protobuf::varint(
            bytes.len(),
        ) + bytes,
        FieldValue::Foreign => Seq::empty(),
    }
}

/// The bytes of a message: those of its fields in order.
pub open spec fn message_bytes(fields: Seq<Field>) -> Seq<u8>
    decreases fields.len(),
{
    if fields.len() == 0 {
        Seq::empty()
    } else {
        field_bytes(fields[0]) + message_bytes(fields.skip(1))
    }
}

/// The bytes of a group that lies in as many other groups as it lies in
/// messages, without the key of the outermost one; `group` is what follows the
/// group's own key.
pub open spec fn enclosed(depth: nat, tag: u32, group: Seq<u8>) -> Seq<u8> {
    Seq::new((depth - 1) as nat, |i: int| 0x0bu8) + protobuf::varint(key(tag, 3)) + group
        + Seq::new(depth, |i: int| 0x0cu8)
}

/// The number of bytes that are skipped for a field of a kind that messages do
/// not use, in a message that lies in `depth` others. Groups and messages
/// count alike towards the limit on how deeply they nest: a group inside
/// messages is skipped where it could be skipped inside as many groups.
pub open spec fn skipped_at(depth: nat, kind: u8, tag: u32, data: Seq<u8>) -> Option<nat> {
    match protobuf::skipped_len(kind, tag, data) {
        Some(len) => if kind == 3 && depth > 0 && protobuf::group_len(
            1,
            enclosed(depth, tag, data.take(len as int)),
        ) is None {
            None
        } else {
            Some(len)
        },
        None => None,
    }
}

/// The field at the front of `data`, in a message that lies in `depth` others,
/// and the number of bytes it takes.
pub open spec fn front_field(depth: nat, data: Seq<u8>) -> Option<(Field, nat)> {
    match protobuf::varint_from(data, 0) {
        None => None,
        Some((k, key_len)) => {
            let rest = data.skip(key_len as int);
            let kind = (k % 8) as u8;
            let tag = (k / 8) as u32;
            if k > u32::MAX || kind >= 6 || tag == 0 {
                None
            } else if kind == 0 {
                match protobuf::varint_from(rest, 0) {
                    None => None,
                    Some((n, len)) => Some(
                        (Field { tag, value: FieldValue::Number(n as u64) }, key_len + len),
                    ),
                }
            } else if kind == 2 {
                match protobuf::varint_from(rest, 0) {
                    None => None,
                    Some((n, len)) => if len + n > rest.len() {
                        None
                    } else {
                        Some(
                            (
                                Field {
                                    tag,
                                    value: FieldValue::Bytes(
                                        rest.subrange(len as int, (len + n) as int),
                                    ),
                                },
                                key_len + len + n,
                            ),
                        )
                    },
                }
            } else {
                match skipped_at(depth, kind, tag, rest) {
                    None => None,
                    Some(len) => Some((Field { tag, value: FieldValue::Foreign }, key_len + len)),
                }
            }
        },
    }
}

/// The fields that `data` holds, as a message that lies in `depth` others,
/// where all of it can be read.
pub open spec fn parse_message(depth: nat, data: Seq<u8>) -> Option<Seq<Field>>
    decreases data.len(),
{
    if data.len() == 0 {
        Some(Seq::empty())
    } else {
        match front_field(depth, data) {
            None => None,
            Some((field, len)) => if len == 0 || len > data.len() {
                None
            } else {
                match parse_message(depth, data.skip(len as int)) {
                    None => None,
                    Some(fields) => Some(seq![field] + fields),
                }
            },
        }
    }
}

/// A field that can be written: its tag is in the range that keys can hold,
/// and its kind is one that messages use.
pub open spec fn writable(field: Field) -> bool {
    &&& 0 < field.tag < 0x2000_0000
    &&& !(field.value is Foreign)
    &&& field.value matches FieldValue::Bytes(bytes) ==> bytes.len() <= u64::MAX
}

// ---------------------------------------------------------------------------
// Facts about numbers in base 128
// ---------------------------------------------------------------------------

/// The numbers that still fit in 64 bits when `count` base-128 digits stand
/// before them.
spec fn room(count: nat) -> nat {
    if count == 0 {
        0x10000000000000000
    } else if count == 1 {
        0x200000000000000
    } else if count == 2 {
        0x4000000000000
    } else if count == 3 {
        0x80000000000
    } else if count == 4 {
        0x1000000000
    } else if count == 5 {
        0x20000000
    } else if count == 6 {
        0x400000
    } else if count == 7 {
        0x8000
    } else if count == 8 {
        0x100
    } else {
        2
    }
}

proof fn lemma_varint_read(n: nat, count: nat, tail: Seq<u8>)
    requires
        count <= 9,
        n < room(count),
    ensures
        protobuf::varint_from(protobuf::varint(n) + tail, count) == Some(
            (n, protobuf::varint(n).len()),
        ),
    decreases n,
{
    let data = protobuf::varint(n) + tail;
    if n < 128 {
        assert(data[0] == n as u8);
    } else {
        let digit = (128 + n % 128) as u8;
        assert(data[0] == digit);
        assert(data.skip(1) =~= protobuf::varint(n / 128) + tail);
        lemma_varint_read(n / 128, count + 1, tail);
        assert(n == n % 128 + 128 * (n / 128));
    }
}

/// Reading a number that was written gives it back.
pub proof fn lemma_varint_roundtrip(n: nat, tail: Seq<u8>)
    requires
        n <= u64::MAX,
    ensures
        protobuf::varint_from(protobuf::varint(n) + tail, 0) == Some(
            (n, protobuf::varint(n).len()),
        ),
{
    lemma_varint_read(n, 0, tail);
}

/// A number takes at least one byte, and a smaller one no more than a larger.
pub proof fn lemma_varint_len(n: nat, bound: nat)
    requires
        n <= bound,
    ensures
        1 <= protobuf::varint(n).len() <= protobuf::varint(bound).len(),
    decreases bound,
{
    if n >= 128 {
        lemma_varint_len(n / 128, bound / 128);
    } else if bound >= 128 {
        lemma_varint_len(0, bound / 128);
    }
}

/// What was read as a number lies in the data and fits in 64 bits.
proof fn lemma_varint_from_bounds(data: Seq<u8>, count: nat)
    requires
        count <= 9,
    ensures
        protobuf::varint_from(data, count) matches Some((n, len)) ==> 1 <= len <= data.len() && n
            < room(count),
    decreases 10 - count,
{
    reveal_with_fuel(protobuf::varint_from, 2);
    if data.len() > 0 && data[0] >= 128 && count < 9 {
        lemma_varint_from_bounds(data.skip(1), count + 1);
    }
}

// ---------------------------------------------------------------------------
// Facts about messages
// ---------------------------------------------------------------------------

proof fn lemma_front_field_written(depth: nat, field: Field, tail: Seq<u8>)
    requires
        writable(field),
    ensures
        front_field(depth, field_bytes(field) + tail) == Some((field, field_bytes(field).len())),
        field_bytes(field).len() > 0,
{
    let data = field_bytes(field) + tail;
    let tag = field.tag;
    match field.value {
        FieldValue::Number(n) => {
            let k = key(tag, 0);
            let body = protobuf::varint(n as nat) + tail;
            assert(data =~= protobuf::varint(k) + body);
            lemma_varint_roundtrip(k, body);
            lemma_varint_len(k, k);
            assert(data.skip(protobuf::varint(k).len() as int) =~= body);
            lemma_varint_roundtrip(n as nat, tail);
            assert(k % 8 == 0 && k / 8 == tag) by (nonlinear_arith)
                requires
                    k == tag as nat * 8 + 0,
            ;
        },
        FieldValue::Bytes(bytes) => {
            let k = key(tag, 2);
            let body = protobuf::varint(bytes.len()) + (bytes + tail);
            assert(data =~= protobuf::varint(k) + body);
            lemma_varint_roundtrip(k, body);
            lemma_varint_len(k, k);
            assert(data.skip(protobuf::varint(k).len() as int) =~= body);
            lemma_varint_roundtrip(bytes.len(), bytes + tail);
            assert(k % 8 == 2 && k / 8 == tag) by (nonlinear_arith)
                requires
                    k == tag as nat * 8 + 2,
            ;
            let len = protobuf::varint(bytes.len()).len() as int;
            assert(body.subrange(len, len + bytes.len()) =~= bytes);
        },
        FieldValue::Foreign => {},
    }
}

/// Reading the bytes of a message gives its fields back.
pub proof fn lemma_message_roundtrip(depth: nat, fields: Seq<Field>)
    requires
        forall|i: int| 0 <= i < fields.len() ==> writable(#[trigger] fields[i]),
    ensures
        parse_message(depth, message_bytes(fields)) == Some(fields),
    decreases fields.len(),
{
    if fields.len() > 0 {
        let tail = message_bytes(fields.skip(1));
        lemma_front_field_written(depth, fields[0], tail);
        lemma_message_roundtrip(depth, fields.skip(1));
        let data = message_bytes(fields);
        assert(data.skip(field_bytes(fields[0]).len() as int) =~= tail);
        assert(seq![fields[0]] + fields.skip(1) =~= fields);
    }
}

/// The bytes of two lists of fields, one after the other.
pub proof fn lemma_message_concat(a: Seq<Field>, b: Seq<Field>)
    ensures
        message_bytes(a + b) == message_bytes(a) + message_bytes(b),
    decreases a.len(),
{
    if a.len() == 0 {
        assert(a + b =~= b);
    } else {
        lemma_message_concat(a.skip(1), b);
        assert((a + b).skip(1) =~= a.skip(1) + b);
        assert((a + b)[0] == a[0]);
    }
}

/// The bytes of one field as a message.
pub proof fn lemma_message_single(field: Field)
    ensures
        message_bytes(seq![field]) == field_bytes(field),
{
    reveal_with_fuel(message_bytes, 2);
    assert(message_bytes(seq![field]) =~= field_bytes(field));
}

// ---------------------------------------------------------------------------
// Writing
// ---------------------------------------------------------------------------

/// The field of a number; zero is left out.
pub open spec fn number_field(tag: u32, n: u64) -> Seq<Field> {
    if n == 0 {
        Seq::empty()
    } else {
        seq![Field { tag, value: FieldValue::Number(n) }]
    }
}

/// The field of a flag; `false` is left out.
pub open spec fn flag_field(tag: u32, flag: bool) -> Seq<Field> {
    number_field(tag, if flag { 1 } else { 0 })
}

/// The field of a byte string; the empty one is left out.
pub open spec fn bytes_field(tag: u32, bytes: Seq<u8>) -> Seq<Field> {
    if bytes.len() == 0 {
        Seq::empty()
    } else {
        message_field(tag, bytes)
    }
}

/// The field of a text; the empty one is left out.
pub open spec fn text_field(tag: u32, text: Seq<char>) -> Seq<Field> {
    bytes_field(tag, vstd::utf8::encode_utf8(text))
}

/// The field of an element that is present even when it is empty.
pub open spec fn message_field(tag: u32, bytes: Seq<u8>) -> Seq<Field> {
    seq![Field { tag, value: FieldValue::Bytes(bytes) }]
}

/// Appends a number.
pub fn put_number(buf: &mut Vec<u8>, tag: u32, n: u64)
    requires
        0 < tag < 0x2000_0000,
    ensures
        final(buf)@ == old(buf)@ + message_bytes(number_field(tag, n)),
{
    if n != 0 {
        let k: u64 = tag as u64 * 8;
        encode_varint(k, buf);
        encode_varint(n, buf);
        proof {
            lemma_message_single(Field { tag, value: FieldValue::Number(n) });
        }
    }
    assert(buf@ =~= old(buf)@ + message_bytes(number_field(tag, n)));
}

/// Appends a flag.
pub fn put_flag(buf: &mut Vec<u8>, tag: u32, flag: bool)
    requires
        0 < tag < 0x2000_0000,
    ensures
        final(buf)@ == old(buf)@ + message_bytes(flag_field(tag, flag)),
{
    if flag {
        put_number(buf, tag, 1);
    } else {
        put_number(buf, tag, 0);
    }
}

/// Appends an element.
pub fn put_message(buf: &mut Vec<u8>, tag: u32, bytes: &[u8])
    requires
        0 < tag < 0x2000_0000,
    ensures
        final(buf)@ == old(buf)@ + message_bytes(message_field(tag, bytes@)),
{
    let k: u64 = tag as u64 * 8 + 2;
    let len: u64 = bytes.len() as u64;
    encode_varint(k, buf);
    encode_varint(len, buf);
    buf.extend_from_slice(bytes);
    proof {
        lemma_message_single(Field { tag, value: FieldValue::Bytes(bytes@) });
    }
    assert(buf@ =~= old(buf)@ + message_bytes(message_field(tag, bytes@)));
}

/// Appends a byte string.
pub fn put_bytes(buf: &mut Vec<u8>, tag: u32, bytes: &[u8])
    requires
        0 < tag < 0x2000_0000,
    ensures
        final(buf)@ == old(buf)@ + message_bytes(bytes_field(tag, bytes@)),
{
    if bytes.len() != 0 {
        put_message(buf, tag, bytes);
    }
    assert(buf@ =~= old(buf)@ + message_bytes(bytes_field(tag, bytes@)));
}

/// Appends a text.
pub fn put_text(buf: &mut Vec<u8>, tag: u32, text: &str)
    requires
        0 < tag < 0x2000_0000,
    ensures
        final(buf)@ == old(buf)@ + message_bytes(text_field(tag, text@)),
{
    put_bytes(buf, tag, text.as_bytes());
}

// ---------------------------------------------------------------------------
// Reading
// ---------------------------------------------------------------------------

/// Reads the fields of a message that lies in `depth` others.
pub fn read_message(depth: usize, data: &[u8]) -> (fields: Option<Vec<RawField>>)
    ensures
        match parse_message(depth as nat, data@) {
            Some(expected) => fields matches Some(read) && raw_fields(read@) == expected,
            None => fields is None,
        },
{
    let mut rest: &[u8] = data;
    let mut fields: Vec<RawField> = Vec::new();
    while rest.len() > 0
        invariant
            parse_message(depth as nat, data@) == match parse_message(depth as nat, rest@) {
                Some(more) => Some(raw_fields(fields@) + more),
                None => None,
            },
        decreases rest@.len(),
    {
        let ghost before = rest@;
        match read_field(depth, &mut rest) {
            None => {
                return None;
            },
            Some(field) => {
                let ghost read = fields@;
                fields.push(field);
                proof {
                    assert(raw_fields(fields@) =~= raw_fields(read).push(field@));
                    if let Some(more) = parse_message(depth as nat, rest@) {
                        assert(raw_fields(read) + (seq![field@] + more) =~= raw_fields(fields@)
                            + more);
                    }
                }
            },
        }
    }
    assert(raw_fields(fields@) + Seq::<Field>::empty() =~= raw_fields(fields@));
    Some(fields)
}

/// Puts a group into as many other groups as it lies in messages.
fn enclose(depth: usize, tag: u32, group: &[u8]) -> (nested: Vec<u8>)
    requires
        0 < depth,
    ensures
        nested@ == enclosed(depth as nat, tag, group@),
{
    let ghost starts = Seq::new((depth - 1) as nat, |i: int| 0x0bu8);
    let ghost ends = Seq::new(depth as nat, |i: int| 0x0cu8);
    let mut nested: Vec<u8> = Vec::new();
    let mut i: usize = 1;
    assert(nested@ =~= starts.take(0));
    while i < depth
        invariant
            1 <= i <= depth,
            starts == Seq::new((depth - 1) as nat, |k: int| 0x0bu8),
            nested@ == starts.take(i - 1),
        decreases depth - i,
    {
        nested.push(0x0b);
        i += 1;
        assert(nested@ =~= starts.take(i - 1));
    }
    assert(starts.take(i - 1) =~= starts);
    encode_varint(tag as u64 * 8 + 3, &mut nested);
    nested.extend_from_slice(group);
    let ghost body = nested@;
    let mut j: usize = 0;
    assert(nested@ =~= body + ends.take(0));
    while j < depth
        invariant
            j <= depth,
            ends == Seq::new(depth as nat, |k: int| 0x0cu8),
            nested@ == body + ends.take(j as int),
        decreases depth - j,
    {
        nested.push(0x0c);
        j += 1;
        assert(nested@ =~= body + ends.take(j as int));
    }
    assert(ends.take(j as int) =~= ends);
    nested
}

/// Reads one field from the front of `rest`, in a message that lies in `depth`
/// others, and moves `rest` behind it.
fn read_field(depth: usize, rest: &mut &[u8]) -> (field: Option<RawField>)
    requires
        old(rest)@.len() > 0,
    ensures
        match field {
            Some(read) => front_field(depth as nat, old(rest)@) matches Some((f, len)) && read@ == f && 0 < len
                <= old(rest)@.len() && final(rest)@ == old(rest)@.skip(len as int),
            None => match front_field(depth as nat, old(rest)@) {
                Some((f, len)) => len == 0 || len > old(rest)@.len(),
                None => true,
            },
        },
{
    let ghost data = rest@;
    proof {
        lemma_varint_from_bounds(data, 0);
    }
    let k: u64 = match decode_varint(rest) {
        Ok(k) => k,
        Err(_) => {
            return None;
        },
    };
    let ghost after_key = rest@;
    let ghost key_len = data.len() - after_key.len();
    if k > 0xffff_ffff {
        return None;
    }
    let kind: u8 = (k % 8) as u8;
    let tag: u32 = (k / 8) as u32;
    if kind >= 6 || tag == 0 {
        return None;
    }
    if kind == 0 || kind == 2 {
        proof {
            lemma_varint_from_bounds(after_key, 0);
        }
        let n: u64 = match decode_varint(rest) {
            Ok(n) => n,
            Err(_) => {
                return None;
            },
        };
        if kind == 0 {
            assert(rest@ =~= data.skip(data.len() - rest@.len()));
            return Some(RawField { tag, value: RawValue::Number(n) });
        }
        let available: u64 = rest.len() as u64;
        if n > available {
            return None;
        }
        let len: usize = n as usize;
        let whole: &[u8] = *rest;
        let ghost body = whole@;
        let bytes = vstd::slice::slice_to_vec(vstd::slice::slice_subrange(whole, 0, len));
        *rest = vstd::slice::slice_subrange(whole, len, whole.len());
        proof {
            let len_len = after_key.len() - body.len();
            assert(bytes@ =~= after_key.subrange(len_len, len_len + n));
            assert(rest@ =~= data.skip(data.len() - rest@.len()));
        }
        Some(RawField { tag, value: RawValue::Bytes(bytes) })
    } else {
        let whole: &[u8] = *rest;
        match skip_field(kind, tag, rest) {
            Ok(_) => {
                let len: usize = whole.len() - rest.len();
                if kind == 3 && depth > 0 {
                    let group = vstd::slice::slice_subrange(whole, 0, len);
                    assert(group@ =~= after_key.take(len as int));
                    let nested = enclose(depth, tag, group);
                    let mut inside: &[u8] = nested.as_slice();
                    if skip_field(3, 1, &mut inside).is_err() {
                        return None;
                    }
                }
                assert(rest@ =~= data.skip(data.len() - rest@.len()));
                Some(RawField { tag, value: RawValue::Foreign })
            },
            Err(_) => None,
        }
    }
}

// ---------------------------------------------------------------------------
// Taking fields in
// ---------------------------------------------------------------------------

/// The models of the items of a list.
pub open spec fn views<T: View>(items: Seq<T>) -> Seq<T::V> {
    items.map_values(|item: T| item@)
}

/// The bytes of each text.
pub open spec fn text_bytes(texts: Seq<Seq<char>>) -> Seq<Seq<u8>> {
    texts.map_values(|text: Seq<char>| vstd::utf8::encode_utf8(text))
}

/// The fields of a list: one for each item, under one tag.
pub open spec fn repeated_fields(tag: u32, items: Seq<Seq<u8>>) -> Seq<Field> {
    items.map_values(|item: Seq<u8>| Field { tag, value: FieldValue::Bytes(item) })
}

/// The model of what a field that was read holds.
pub open spec fn raw_value(value: RawValue) -> FieldValue {
    match value {
        RawValue::Number(n) => FieldValue::Number(n),
        RawValue::Bytes(bytes) => FieldValue::Bytes(bytes@),
        RawValue::Foreign => FieldValue::Foreign,
    }
}

/// A field's value as a number.
pub open spec fn number_value(value: FieldValue) -> Option<u64> {
    match value {
        FieldValue::Number(n) => Some(n),
        _ => None,
    }
}

/// A field's value as a byte string.
pub open spec fn bytes_value(value: FieldValue) -> Option<Seq<u8>> {
    match value {
        FieldValue::Bytes(bytes) => Some(bytes),
        _ => None,
    }
}

/// A field's value as a text.
pub open spec fn text_value(value: FieldValue) -> Option<Seq<char>> {
    match value {
        FieldValue::Bytes(bytes) => if vstd::utf8::valid_utf8(bytes) {
            Some(vstd::utf8::decode_utf8(bytes))
        } else {
            None
        },
        _ => None,
    }
}

/// What `start` becomes when the fields are taken in one after the other;
/// `None` as soon as one cannot be.
pub open spec fn merged<V>(
    step: spec_fn(V, Field) -> Option<V>,
    start: V,
    fields: Seq<Field>,
) -> Option<V>
    decreases fields.len(),
{
    if fields.len() == 0 {
        Some(start)
    } else {
        match step(start, fields[0]) {
            Some(next) => merged(step, next, fields.skip(1)),
            None => None,
        }
    }
}

/// What `start` becomes when the fields in `data`, a message that lies in
/// `depth` others, are taken in.
pub open spec fn merged_from<V>(
    depth: nat,
    step: spec_fn(V, Field) -> Option<V>,
    start: V,
    data: Seq<u8>,
) -> Option<V> {
    match parse_message(depth, data) {
        Some(fields) => merged(step, start, fields),
        None => None,
    }
}

/// Fields whose tags are in range and whose kinds messages use.
pub open spec fn plain(fields: Seq<Field>) -> bool {
    forall|i: int|
        0 <= i < fields.len() ==> 0 < (#[trigger] fields[i]).tag < 0x2000_0000
            && !(fields[i].value is Foreign)
}

pub proof fn lemma_merged_concat<V>(
    step: spec_fn(V, Field) -> Option<V>,
    start: V,
    a: Seq<Field>,
    b: Seq<Field>,
)
    ensures
        merged(step, start, a + b) == match merged(step, start, a) {
            Some(next) => merged(step, next, b),
            None => None,
        },
    decreases a.len(),
{
    if a.len() == 0 {
        assert(a + b =~= b);
    } else {
        assert((a + b)[0] == a[0]);
        assert((a + b).skip(1) =~= a.skip(1) + b);
        if let Some(next) = step(start, a[0]) {
            lemma_merged_concat(step, next, a.skip(1), b);
        }
    }
}

pub proof fn lemma_merged_small<V>(
    step: spec_fn(V, Field) -> Option<V>,
    start: V,
    fields: Seq<Field>,
)
    requires
        fields.len() <= 1,
    ensures
        merged(step, start, fields) == if fields.len() == 0 {
            Some(start)
        } else {
            step(start, fields[0])
        },
{
    reveal_with_fuel(merged, 2);
}

pub proof fn lemma_merged_next<V>(
    step: spec_fn(V, Field) -> Option<V>,
    start: V,
    fields: Seq<Field>,
    i: int,
)
    requires
        0 <= i < fields.len(),
    ensures
        merged(step, start, fields.skip(i)) == match step(start, fields[i]) {
            Some(next) => merged(step, next, fields.skip(i + 1)),
            None => None,
        },
{
    assert(fields.skip(i).skip(1) =~= fields.skip(i + 1));
    assert(fields.skip(i)[0] == fields[i]);
}

pub proof fn lemma_plain_concat(a: Seq<Field>, b: Seq<Field>)
    requires
        plain(a),
        plain(b),
    ensures
        plain(a + b),
{
}

/// A field is no longer than the message it belongs to.
pub proof fn lemma_part_len(fields: Seq<Field>, i: int)
    requires
        0 <= i < fields.len(),
    ensures
        field_bytes(fields[i]).len() <= message_bytes(fields).len(),
        fields[i].value matches FieldValue::Bytes(bytes) ==> bytes.len() <= message_bytes(
            fields,
        ).len(),
    decreases fields.len(),
{
    if i > 0 {
        lemma_part_len(fields.skip(1), i - 1);
        assert(fields.skip(1)[i - 1] == fields[i]);
    }
}

/// The fields of a message whose length is a 64-bit number can be written.
pub proof fn lemma_writable(fields: Seq<Field>)
    requires
        plain(fields),
        message_bytes(fields).len() <= u64::MAX,
    ensures
        forall|i: int| 0 <= i < fields.len() ==> writable(#[trigger] fields[i]),
{
    assert forall|i: int| 0 <= i < fields.len() implies writable(#[trigger] fields[i]) by {
        lemma_part_len(fields, i);
    }
}

pub proof fn lemma_text_field(tag: u32, text: Seq<char>)
    ensures
        text_field(tag, text).len() == 0 ==> text == Seq::<char>::empty(),
        text_field(tag, text).len() > 0 ==> text_value(text_field(tag, text)[0].value) == Some(
            text,
        ),
{
    vstd::utf8::encode_utf8_valid_utf8(text);
    vstd::utf8::encode_utf8_decode_utf8(text);
    if vstd::utf8::encode_utf8(text).len() == 0 {
        assert(vstd::utf8::encode_utf8(text) =~= vstd::utf8::encode_utf8(Seq::<char>::empty()));
        crate::text::lemma_utf8_injective(text, Seq::empty());
    }
}

pub proof fn lemma_bytes_field(tag: u32, bytes: Seq<u8>)
    ensures
        bytes_field(tag, bytes).len() == 0 ==> bytes == Seq::<u8>::empty(),
{
    if bytes.len() == 0 {
        assert(bytes =~= Seq::<u8>::empty());
    }
}

/// A signed number survives the way through its two's complement.
pub proof fn lemma_signed(n: i64)
    ensures
        (n as u64) as i64 == n,
        n as u64 == 0 ==> n == 0,
{
    assert((n as u64) as i64 == n) by (bit_vector);
    assert(n as u64 == 0 ==> n == 0) by (bit_vector);
}

pub proof fn lemma_append(start: Seq<u8>, a: Seq<Field>, b: Seq<Field>)
    ensures
        start + message_bytes(a) + message_bytes(b) == start + message_bytes(a + b),
{
    lemma_message_concat(a, b);
    assert(start + message_bytes(a) + message_bytes(b) =~= start + message_bytes(a + b));
}

pub proof fn lemma_repeated_none(start: Seq<u8>, tag: u32, items: Seq<Seq<u8>>)
    ensures
        start == start + message_bytes(repeated_fields(tag, items.take(0))),
{
    assert(repeated_fields(tag, items.take(0)) =~= Seq::empty());
    assert(start =~= start + Seq::<u8>::empty());
}

pub proof fn lemma_repeated_next(start: Seq<u8>, tag: u32, items: Seq<Seq<u8>>, i: int)
    requires
        0 <= i < items.len(),
    ensures
        start + message_bytes(repeated_fields(tag, items.take(i))) + message_bytes(
            message_field(tag, items[i]),
        ) == start + message_bytes(repeated_fields(tag, items.take(i + 1))),
{
    lemma_append(start, repeated_fields(tag, items.take(i)), message_field(tag, items[i]));
    assert(repeated_fields(tag, items.take(i + 1)) =~= repeated_fields(tag, items.take(i))
        + message_field(tag, items[i]));
}

/// A copy of some bytes.
pub fn copy_bytes(bytes: &[u8]) -> (copy: Vec<u8>)
    ensures
        copy@ == bytes@,
{
    vstd::slice::slice_to_vec(bytes)
}

/// A copy of some texts.
pub fn copy_texts(texts: &Vec<String>) -> (copy: Vec<String>)
    ensures
        views(copy@) == views(texts@),
{
    let ghost all = views(texts@);
    let mut copy: Vec<String> = Vec::new();
    let mut i: usize = 0;
    assert(views(copy@) =~= all.take(0));
    while i < texts.len()
        invariant
            i <= texts@.len(),
            all == views(texts@),
            views(copy@) == all.take(i as int),
        decreases texts@.len() - i,
    {
        let ghost before = copy@;
        let text = texts[i].clone();
        copy.push(text);
        i += 1;
        assert(views(copy@) =~= views(before).push(text@));
        assert(views(copy@) =~= all.take(i as int));
    }
    assert(all.take(i as int) =~= all);
    copy
}

/// Appends each text as an element of a list.
pub fn put_texts(buf: &mut Vec<u8>, tag: u32, texts: &Vec<String>)
    requires
        0 < tag < 0x2000_0000,
    ensures
        final(buf)@ == old(buf)@ + message_bytes(
            repeated_fields(tag, text_bytes(views(texts@))),
        ),
{
    let ghost start = buf@;
    let ghost items = text_bytes(views(texts@));
    let mut i: usize = 0;
    proof {
        lemma_repeated_none(start, tag, items);
    }
    while i < texts.len()
        invariant
            i <= texts@.len(),
            0 < tag < 0x2000_0000,
            items == text_bytes(views(texts@)),
            buf@ == start + message_bytes(repeated_fields(tag, items.take(i as int))),
        decreases texts@.len() - i,
    {
        let data = texts[i].as_str().as_bytes();
        put_message(buf, tag, data);
        proof {
            assert(items[i as int] == data@);
            lemma_repeated_next(start, tag, items, i as int);
        }
        i += 1;
    }
    assert(items.take(i as int) =~= items);
}

/// A field's value as a number.
pub fn read_number(value: &RawValue) -> (number: Option<u64>)
    ensures
        number == number_value(raw_value(*value)),
{
    match value {
        RawValue::Number(n) => Some(*n),
        _ => None,
    }
}

/// A field's value as a byte string.
pub fn read_bytes(value: &RawValue) -> (bytes: Option<Vec<u8>>)
    ensures
        match bytes_value(raw_value(*value)) {
            Some(expected) => bytes matches Some(read) && read@ == expected,
            None => bytes is None,
        },
{
    match value {
        RawValue::Bytes(bytes) => Some(copy_bytes(bytes.as_slice())),
        _ => None,
    }
}

/// A field's value as a text.
pub fn read_text(value: &RawValue) -> (text: Option<String>)
    ensures
        match text_value(raw_value(*value)) {
            Some(expected) => text matches Some(read) && read@ == expected,
            None => text is None,
        },
{
    match value {
        RawValue::Bytes(bytes) => string_from_utf8(copy_bytes(bytes.as_slice())),
        _ => None,
    }
}

} // verus!
