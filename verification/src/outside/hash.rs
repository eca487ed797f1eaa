//! The hash functions and digit encodings of `blake3` and `hex`.

use vstd::prelude::*;

verus! {

/// The 32-byte BLAKE3 hash of some bytes.
pub uninterp spec fn blake3_digest(data: Seq<u8>) -> Seq<u8>;

/// What a `blake3::Hasher` has taken in so far.
pub uninterp spec fn absorbed(hasher: blake3::Hasher) -> Seq<u8>;

#[verifier::external_type_specification]
#[verifier::external_body]
pub struct ExHasher(blake3::Hasher);

/// `blake3::hash` is the hash of its argument, 32 bytes long.
#[verifier::external_body]
pub(crate) fn hash(data: &[u8]) -> (digest: Vec<u8>)
    ensures
        digest@ == blake3_digest(data@),
        digest@.len() == 32,
{
    blake3::hash(data).as_bytes().to_vec()
}

/// `blake3::Hasher::new` starts with nothing taken in.
#[verifier::external_body]
pub(crate) fn new_hasher() -> (hasher: blake3::Hasher)
    ensures
        absorbed(hasher) == Seq::<u8>::empty(),
{
    blake3::Hasher::new()
}

/// `blake3::Hasher::update` takes in more bytes.
#[verifier::external_body]
pub(crate) fn update(hasher: &mut blake3::Hasher, data: &[u8])
    ensures
        absorbed(*final(hasher)) == absorbed(*old(hasher)) + data@,
{
    hasher.update(data);
}

/// `blake3::Hasher::update_rayon` takes in more bytes as `update` does, with
/// the work spread over threads.
#[verifier::external_body]
pub(crate) fn update_rayon(hasher: &mut blake3::Hasher, data: &[u8])
    ensures
        absorbed(*final(hasher)) == absorbed(*old(hasher)) + data@,
{
    hasher.update_rayon(data);
}

/// `blake3::Hasher::finalize` is the hash of what was taken in, 32 bytes long.
#[verifier::external_body]
pub(crate) fn finalize(hasher: &blake3::Hasher) -> (digest: Vec<u8>)
    ensures
        digest@ == blake3_digest(absorbed(*hasher)),
        digest@.len() == 32,
{
    hasher.finalize().as_bytes().to_vec()
}

/// The 32-byte key that BLAKE3 derives from some key material in a context.
pub uninterp spec fn derived_key(context: Seq<char>, material: Seq<u8>) -> Seq<u8>;

/// `blake3::derive_key` depends on the context and the key material alone.
#[verifier::external_body]
pub(crate) fn derive_key(context: &str, material: &[u8]) -> (key: [u8; 32])
    ensures
        key@ == derived_key(context@, material@),
{
    blake3::derive_key(context, material)
}

/// A hexadecimal digit.
pub open spec fn hex_digit(n: int, upper: bool) -> char {
    if n < 10 {
        ('0' as u32 + n) as char
    } else if upper {
        ('A' as u32 + n - 10) as char
    } else {
        ('a' as u32 + n - 10) as char
    }
}

/// Bytes in hexadecimal: two digits for each, the higher half first.
pub open spec fn hex(bytes: Seq<u8>, upper: bool) -> Seq<char> {
    Seq::new(
        bytes.len() * 2,
        |i: int|
            if i % 2 == 0 {
                hex_digit(bytes[i / 2] as int / 16, upper)
            } else {
                hex_digit(bytes[i / 2] as int % 16, upper)
            },
    )
}

/// `blake3::Hash::to_hex` writes a hash in hexadecimal, with small letters.
#[verifier::external_body]
pub(crate) fn to_hex(digest: &[u8]) -> (text: String)
    requires
        digest@.len() == 32,
    ensures
        text@ == hex(digest@, false),
{
    blake3::Hash::from_bytes(digest.try_into().unwrap()).to_hex().to_string()
}

/// `hex::encode_upper` writes bytes in hexadecimal, with capital letters.
#[verifier::external_body]
pub(crate) fn encode_upper(data: &[u8]) -> (text: String)
    ensures
        text@ == hex(data@, true),
{
    hex::encode_upper(data)
}

} // verus!
