//! What differs from run to run and from machine to machine: random numbers,
//! identities and the clock.

use rand::Rng;
use vstd::prelude::*;
use zeroize::Zeroize;

use crate::outside::hash;

verus! {

/// `rand::Rng::fill` fills a buffer with random bytes; nothing is known of
/// them but their number.
#[verifier::external_body]
pub(crate) fn random_bytes(len: usize) -> (bytes: Vec<u8>)
    ensures
        bytes@.len() == len,
{
    let mut bytes = vec![0u8; len];
    rand::rng().fill(bytes.as_mut_slice());
    bytes
}

/// Whether bytes can be a random identity: there are 16 of them, and the bits
/// that tell its version and its variant are in place.
pub open spec fn is_random_uuid(bytes: Seq<u8>) -> bool {
    &&& bytes.len() == 16
    &&& bytes[6] / 16 == 4
    &&& bytes[8] / 64 == 2
}

/// `uuid::Uuid::new_v4` draws a new random identity: the upper four bits of
/// the seventh byte are its version, the upper two of the ninth its variant.
#[verifier::external_body]
pub(crate) fn new_uuid() -> (bytes: Vec<u8>)
    ensures
        is_random_uuid(bytes@),
{
    uuid::Uuid::new_v4().as_bytes().to_vec()
}

/// An identity as text: its bytes in hexadecimal, in five groups.
pub open spec fn uuid_text(bytes: Seq<u8>) -> Seq<char> {
    hash::hex(bytes.subrange(0, 4), false) + seq!['-'] + hash::hex(bytes.subrange(4, 6), false)
        + seq!['-'] + hash::hex(bytes.subrange(6, 8), false) + seq!['-'] + hash::hex(
        bytes.subrange(8, 10),
        false,
    ) + seq!['-'] + hash::hex(bytes.subrange(10, 16), false)
}

/// `Uuid::to_string` writes the bytes in hexadecimal, with hyphens behind the
/// fourth, sixth, eighth and tenth.
#[verifier::external_body]
pub(crate) fn format_uuid(bytes: &[u8]) -> (text: String)
    requires
        bytes@.len() == 16,
    ensures
        text@ == uuid_text(bytes@),
{
    uuid::Uuid::from_slice(bytes).unwrap().to_string()
}

/// `machine_uid::get` asks the system for the machine's identity; nothing is
/// known of it.
#[verifier::external_body]
pub(crate) fn machine_id() -> (id: Option<String>) {
    machine_uid::get().ok()
}

/// `SystemTime::elapsed` since the beginning of 1970, in milliseconds; nothing
/// is known of it.
#[verifier::external_body]
pub(crate) fn clock_millis() -> (millis: Option<u128>) {
    std::time::UNIX_EPOCH.elapsed().ok().map(|time| time.as_millis())
}

/// `Zeroize::zeroize` of `zeroize` wipes a text that is no longer needed.
#[verifier::external_body]
pub(crate) fn wipe(mut secret: String) {
    secret.zeroize()
}

} // verus!
