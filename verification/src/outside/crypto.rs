//! Message authentication and encryption of `hmac` and `chacha20poly1305`.

use chacha20poly1305::aead::{Aead, KeyInit};
use hmac::Mac;
use vstd::prelude::*;

verus! {

/// The 32-byte HMAC-SHA-256 tag of a message under a key.
pub uninterp spec fn hmac_tag(key: Seq<u8>, message: Seq<u8>) -> Seq<u8>;

/// `hmac::Hmac<Sha256>` takes keys of every length; its tag depends on the key
/// and the message alone and is 32 bytes long.
#[verifier::external_body]
pub(crate) fn hmac_sha256(key: &[u8], message: &[u8]) -> (tag: Vec<u8>)
    ensures
        tag@ == hmac_tag(key@, message@),
        tag@.len() == 32,
{
    let mut mac = <hmac::Hmac<sha2::Sha256> as Mac>::new_from_slice(key).unwrap();
    mac.update(message);
    mac.finalize().into_bytes().to_vec()
}

/// `hmac::Mac::verify_slice` accepts the whole tag of the message and nothing
/// else.
#[verifier::external_body]
pub(crate) fn verify_hmac_sha256(key: &[u8], message: &[u8], tag: &[u8]) -> (ok: bool)
    ensures
        ok == (tag@ == hmac_tag(key@, message@)),
{
    let mut mac = <hmac::Hmac<sha2::Sha256> as Mac>::new_from_slice(key).unwrap();
    mac.update(message);
    mac.verify_slice(tag).is_ok()
}

/// What XChaCha20-Poly1305 makes of a plain text.
pub uninterp spec fn sealed(key: Seq<u8>, nonce: Seq<u8>, plain: Seq<u8>) -> Option<Seq<u8>>;

/// The plain text that XChaCha20-Poly1305 finds in a sealed text, where its
/// tag is right.
pub uninterp spec fn opened(key: Seq<u8>, nonce: Seq<u8>, cipher: Seq<u8>) -> Option<Seq<u8>>;

/// `Aead::encrypt` of `XChaCha20Poly1305` depends on its arguments alone. It
/// succeeds on plain texts of fewer than 2^32 - 1 blocks, and `Aead::decrypt`
/// gives the plain text back.
#[verifier::external_body]
pub(crate) fn seal(key: &[u8; 32], nonce: &[u8], plain: &[u8]) -> (cipher: Option<Vec<u8>>)
    requires
        nonce@.len() == 24,
    ensures
        match sealed(key@, nonce@, plain@) {
            Some(expected) => cipher matches Some(c) && c@ == expected,
            None => cipher is None,
        },
        plain@.len() < 0x3f_ffff_ffc0 ==> cipher is Some,
        cipher matches Some(c) ==> opened(key@, nonce@, c@) == Some(plain@),
{
    let cipher = chacha20poly1305::XChaCha20Poly1305::new_from_slice(key).unwrap();
    let nonce = chacha20poly1305::XNonce::try_from(nonce).unwrap();
    cipher.encrypt(&nonce, plain).ok()
}

/// `Aead::decrypt` of `XChaCha20Poly1305` depends on its arguments alone.
#[verifier::external_body]
pub(crate) fn open(key: &[u8; 32], nonce: &[u8], cipher: &[u8]) -> (plain: Option<Vec<u8>>)
    requires
        nonce@.len() == 24,
    ensures
        match opened(key@, nonce@, cipher@) {
            Some(expected) => plain matches Some(p) && p@ == expected,
            None => plain is None,
        },
{
    let aead = chacha20poly1305::XChaCha20Poly1305::new_from_slice(key).unwrap();
    let nonce = chacha20poly1305::XNonce::try_from(nonce).unwrap();
    aead.decrypt(&nonce, cipher).ok()
}

/// The text that Base64 writes for some bytes.
pub uninterp spec fn base64_text(bytes: Seq<u8>) -> Seq<char>;

/// The bytes that a Base64 text stands for.
pub uninterp spec fn base64_bytes(text: Seq<char>) -> Option<Seq<u8>>;

/// `Engine::encode` of `base64`'s standard engine depends on the bytes alone,
/// and `Engine::decode` gives them back.
#[verifier::external_body]
pub(crate) fn base64_encode(data: &[u8]) -> (text: String)
    ensures
        text@ == base64_text(data@),
        base64_bytes(text@) == Some(data@),
{
    base64::Engine::encode(&base64::engine::general_purpose::STANDARD, data)
}

/// `Engine::decode` of `base64`'s standard engine depends on the text alone.
#[verifier::external_body]
pub(crate) fn base64_decode(text: &str) -> (data: Option<Vec<u8>>)
    ensures
        match base64_bytes(text@) {
            Some(expected) => data matches Some(d) && d@ == expected,
            None => data is None,
        },
{
    base64::Engine::decode(&base64::engine::general_purpose::STANDARD, text).ok()
}

} // verus!
