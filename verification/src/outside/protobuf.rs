//! The variable-length integers and the field skipping of `prost`.

use vstd::prelude::*;

verus! {

/// The base-128 digits of a number, least significant first; every byte but
/// the last has its top bit set.
pub open spec fn varint(n: nat) -> Seq<u8>
    decreases n,
{
    if n < 128 {
        seq![n as u8]
    } else {
        seq![(128 + n % 128) as u8] + varint(n / 128)
    }
}

/// What a base-128 number at the front of `data` says, and how many bytes it
/// takes, when `count` of its bytes were read before. At most ten bytes belong
/// to a number, and its value fits in 64 bits.
pub open spec fn varint_from(data: Seq<u8>, count: nat) -> Option<(nat, nat)>
    decreases 10 - count,
{
    if count >= 10 || data.len() == 0 {
        None
    } else if data[0] < 128 {
        if count == 9 && data[0] >= 2 {
            None
        } else {
            Some((data[0] as nat, 1))
        }
    } else {
        match varint_from(data.skip(1), count + 1) {
            Some((rest, len)) => Some(((data[0] - 128) as nat + 128 * rest, len + 1)),
            None => None,
        }
    }
}

#[verifier::external_type_specification]
#[verifier::external_body]
pub struct ExDecodeError(prost::DecodeError);

/// `prost::encoding::encode_varint` appends the number in base 128.
#[verifier::external_body]
pub(crate) fn encode_varint(value: u64, buf: &mut Vec<u8>)
    ensures
        final(buf)@ == old(buf)@ + varint(value as nat),
{
    prost::encoding::encode_varint(value, buf)
}

/// `prost::encoding::decode_varint` reads a number from the front of the
/// buffer and moves the buffer behind it; it fails on an empty or cut-off
/// number, on one of more than ten bytes and on one that overflows 64 bits.
#[verifier::external_body]
pub(crate) fn decode_varint(buf: &mut &[u8]) -> (value: Result<u64, prost::DecodeError>)
    ensures
        match varint_from(old(buf)@, 0) {
            Some((n, len)) => value matches Ok(v) && v == n && final(buf)@ == old(buf)@.skip(
                len as int,
            ),
            None => value is Err,
        },
{
    prost::encoding::decode_varint(buf)
}

/// The number of bytes that a group takes after its key, its end mark with
/// it, where `prost` can skip it.
pub uninterp spec fn group_len(tag: u32, data: Seq<u8>) -> Option<nat>;

/// The number of bytes that `prost` skips for a field of a kind other than a
/// number or a byte string, after its key. The kinds have the numbers of the
/// wire types: eight bytes, four bytes, a group, and the end of a group, which
/// cannot stand alone.
pub open spec fn skipped_len(wire_type: u8, tag: u32, data: Seq<u8>) -> Option<nat> {
    if wire_type == 1 {
        if data.len() < 8 {
            None
        } else {
            Some(8)
        }
    } else if wire_type == 5 {
        if data.len() < 4 {
            None
        } else {
            Some(4)
        }
    } else if wire_type == 3 {
        group_len(tag, data)
    } else {
        None
    }
}

/// `prost::encoding::skip_field` moves the buffer behind a field whose key was
/// just read: eight bytes, four bytes, or a group up to its end mark. It fails
/// where the buffer ends too early, where an end mark does not match, and
/// where groups nest too deeply.
#[verifier::external_body]
pub(crate) fn skip_field(wire_type: u8, tag: u32, buf: &mut &[u8]) -> (skipped: Result<
    (),
    prost::DecodeError,
>)
    requires
        wire_type == 1 || 3 <= wire_type <= 5,
    ensures
        match skipped_len(wire_type, tag, old(buf)@) {
            Some(len) => skipped is Ok && len <= old(buf)@.len() && final(buf)@
                == old(buf)@.skip(len as int),
            None => skipped is Err,
        },
        wire_type == 3 ==> match group_len(tag, old(buf)@) {
            Some(len) => skipped is Ok && len <= old(buf)@.len(),
            None => skipped is Err,
        },
{
    let kind = prost::encoding::WireType::try_from(u64::from(wire_type))?;
    prost::encoding::skip_field(kind, tag, buf, prost::encoding::DecodeContext::default())
}

} // verus!
