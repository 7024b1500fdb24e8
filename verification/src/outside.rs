//! Trusted wrappers around the outside crates the library calls: JSON pointer
//! evaluation, identifier generation and formatting, hashing, hex encoding,
//! Ed25519 signing and the wall clock.

use vstd::prelude::*;
use ed25519_dalek::Signer;
use rand::RngCore;
use sha2::Digest;
use std::hash::{Hash, Hasher};

verus! {

/// Whether the JSON document `document` (text) holds, at the JSON pointer
/// `pointer`, a value equal to the JSON value `expected` (text). Computed by
/// `serde_json`; false when either text is not valid JSON.
pub uninterp spec fn json_pointer_matches(document: Seq<char>, pointer: Seq<char>, expected: Seq<char>) -> bool;

/// Parses `document` and `expected` with `serde_json::from_str`, looks up
/// `pointer` with `serde_json::Value::pointer` and compares with `Value`'s
/// `==`. The contract claims only that the answer is the fixed function
/// `json_pointer_matches` of the three texts.
#[verifier::external_body]
pub(crate) fn json_pointer_eq(document: &str, pointer: &str, expected: &str) -> (r: bool)
    ensures
        r == json_pointer_matches(document@, pointer@, expected@),
{
    let doc = serde_json::from_str::<serde_json::Value>(document);
    let exp = serde_json::from_str::<serde_json::Value>(expected);
    match (doc, exp) {
        (Ok(d), Ok(e)) => d.pointer(pointer) == Some(&e),
        _ => false,
    }
}

/// The text `serde_json` writes (`Value::to_string`) for the JSON value it
/// parses from `text` (`serde_json::from_str::<Value>`); none when `text` is
/// not JSON.
pub uninterp spec fn json_reserialized(text: Seq<char>) -> Option<Seq<char>>;

/// Parses `text` with `serde_json::from_str::<serde_json::Value>` and writes
/// the value back with `to_string`. The contract claims only that the answer
/// is the fixed function `json_reserialized` of the text.
#[verifier::external_body]
pub(crate) fn json_reserialize(text: &str) -> (r: Option<String>)
    ensures
        match r {
            Some(t) => json_reserialized(text@) == Some(t@),
            None => json_reserialized(text@) is None,
        },
{
    match serde_json::from_str::<serde_json::Value>(text) {
        Ok(v) => Some(v.to_string()),
        Err(_) => None,
    }
}

/// The JSON string literal `serde_json` writes for `text` (quoted, with
/// `serde_json`'s escapes).
pub uninterp spec fn json_string_literal(text: Seq<char>) -> Seq<char>;

/// `serde_json::Value::String(text).to_string()`: the contract only names
/// the result.
#[verifier::external_body]
pub(crate) fn json_quote(text: &str) -> (r: String)
    ensures
        r@ == json_string_literal(text@),
{
    serde_json::Value::String(text.to_string()).to_string()
}

/// The canonical JSON bytes of `text`: `serde_json` parses it into a `Value`
/// and serializes that with `to_vec`. Without the `preserve_order` feature
/// (not enabled in this build) `serde_json`'s maps are `BTreeMap`s, so object
/// keys come out in ascending order at every depth; with `float_roundtrip`
/// (enabled in this build) a number written by `serde_json` reads back as the
/// same `f64`. None when `text` is not JSON.
pub uninterp spec fn canonical_json(text: Seq<char>) -> Option<Seq<u8>>;

/// `serde_json::from_str::<serde_json::Value>` followed by
/// `serde_json::to_vec`. The contract claims only that the answer is the
/// fixed function `canonical_json` of the text.
#[verifier::external_body]
pub(crate) fn canonical_json_bytes(text: &str) -> (r: Option<Vec<u8>>)
    ensures
        match r {
            Some(b) => canonical_json(text@) == Some(b@),
            None => canonical_json(text@) is None,
        },
{
    match serde_json::from_str::<serde_json::Value>(text) {
        Ok(v) => match serde_json::to_vec(&v) {
            Ok(b) => Some(b),
            Err(_) => None,
        },
        Err(_) => None,
    }
}

/// The integer `serde_json` reads at key `key` of the JSON object written in
/// `text` (`from_str::<Value>`, `Value::get`, `Value::as_i64`); none when the
/// text is not JSON, the key is absent or its value is not an `i64`.
pub uninterp spec fn json_field_i64(text: Seq<char>, key: Seq<char>) -> Option<i64>;

/// `serde_json::from_str::<serde_json::Value>(text)`, then `.get(key)` and
/// `.as_i64()`. The contract claims only that the answer is the fixed
/// function `json_field_i64` of the text and the key.
#[verifier::external_body]
pub(crate) fn json_get_i64(text: &str, key: &str) -> (r: Option<i64>)
    ensures
        r == json_field_i64(text@, key@),
{
    match serde_json::from_str::<serde_json::Value>(text) {
        Ok(v) => match v.get(key) {
            Some(x) => x.as_i64(),
            None => None,
        },
        Err(_) => None,
    }
}

/// Lower-case hexadecimal digits.
pub open spec fn hex_digits() -> Seq<char> {
    seq!['0', '1', '2', '3', '4', '5', '6', '7', '8', '9', 'a', 'b', 'c', 'd', 'e', 'f']
}

/// The two lower-case hex digits of a byte, high nibble first.
pub open spec fn hex_byte(b: u8) -> Seq<char> {
    seq![hex_digits()[(b / 16) as int], hex_digits()[(b % 16) as int]]
}

/// Lower-case hex encoding: two digits per byte, in order.
pub open spec fn hex_lower(bytes: Seq<u8>) -> Seq<char>
    decreases bytes.len(),
{
    if bytes.len() == 0 {
        Seq::empty()
    } else {
        hex_lower(bytes.drop_last()) + hex_byte(bytes.last())
    }
}

/// Hyphenated lower-case text of a UUID's sixteen bytes, grouped 4-2-2-2-6.
pub open spec fn uuid_text(b: Seq<u8>) -> Seq<char> {
    hex_lower(b.subrange(0, 4)) + seq!['-'] + hex_lower(b.subrange(4, 6)) + seq!['-'] + hex_lower(b.subrange(6, 8))
        + seq!['-'] + hex_lower(b.subrange(8, 10)) + seq!['-'] + hex_lower(b.subrange(10, 16))
}

/// `hex::encode`: the `hex` documentation promises two lower-case digits per
/// byte, in order, which is what the contract states.
#[verifier::external_body]
pub(crate) fn hex_encode(bytes: &[u8]) -> (r: String)
    ensures
        r@ == hex_lower(bytes@),
{
    hex::encode(bytes)
}

/// The `Display` text of `uuid::Uuid::from_bytes(*b)`: the `uuid`
/// documentation gives it as the lower-case hyphenated form, which the
/// contract states.
#[verifier::external_body]
pub(crate) fn uuid_hyphenated(b: &[u8; 16]) -> (r: String)
    ensures
        r@ == uuid_text(b@),
{
    uuid::Uuid::from_bytes(*b).hyphenated().to_string()
}

/// The bytes of a fresh version-4 UUID from `uuid::Uuid::new_v4`. Random: the
/// contract states only the version and variant bits that the `uuid`
/// documentation fixes (version nibble 4, RFC 4122 variant `10`).
#[verifier::external_body]
pub(crate) fn new_v4_bytes() -> (r: [u8; 16])
    ensures
        r@[6] >> 4u8 == 4u8,
        r@[8] >> 6u8 == 2u8,
{
    *uuid::Uuid::new_v4().as_bytes()
}

/// The SHA-256 digest of a byte string (computed by the `sha2` crate).
pub uninterp spec fn sha256_digest(data: Seq<u8>) -> Seq<u8>;

/// `sha2::Sha256::digest`: the digest of `data`, named `sha256_digest`; a
/// SHA-256 digest is 32 bytes long.
#[verifier::external_body]
pub(crate) fn sha256(data: &[u8]) -> (r: Vec<u8>)
    ensures
        r@ == sha256_digest(data@),
        r@.len() == 32,
{
    sha2::Sha256::digest(data).to_vec()
}

/// The Ed25519 public key of a 32-byte secret key (RFC 8032, as computed by
/// `ed25519-dalek`).
pub uninterp spec fn ed25519_public_key(secret: Seq<u8>) -> Seq<u8>;

/// The Ed25519 signature, by a 32-byte secret key, of the UTF-8 bytes of a
/// message text (RFC 8032 signing is deterministic; computed by `ed25519-dalek`).
pub uninterp spec fn ed25519_signature(secret: Seq<u8>, message: Seq<char>) -> Seq<u8>;

/// `ed25519_dalek::SigningKey::from_bytes(secret).verifying_key().to_bytes()`:
/// the contract only names the result.
#[verifier::external_body]
pub(crate) fn ed25519_public(secret: &[u8; 32]) -> (r: [u8; 32])
    ensures
        r@ == ed25519_public_key(secret@),
{
    ed25519_dalek::SigningKey::from_bytes(secret).verifying_key().to_bytes()
}

/// `ed25519_dalek::Signer::sign` with the key built from `secret`, over the
/// UTF-8 bytes of `message`: the contract only names the result.
#[verifier::external_body]
pub(crate) fn ed25519_sign(secret: &[u8; 32], message: &str) -> (r: [u8; 64])
    ensures
        r@ == ed25519_signature(secret@, message@),
{
    ed25519_dalek::SigningKey::from_bytes(secret).sign(message.as_bytes()).to_bytes()
}

/// Thirty-two bytes from the operating system's random source
/// (`rand::rngs::OsRng`). Random: nothing is promised of the value.
#[verifier::external_body]
pub(crate) fn os_random_secret() -> (r: [u8; 32]) {
    let mut b = [0u8; 32];
    rand::rngs::OsRng.fill_bytes(&mut b);
    b
}

/// `chrono::Utc::now().timestamp_millis()`: the wall clock, so nothing is
/// promised of the value.
#[verifier::external_body]
pub(crate) fn utc_now_millis() -> (r: i64) {
    chrono::Utc::now().timestamp_millis()
}

/// `std::collections::hash_map::DefaultHasher::new()` over `key` (`Hash` for
/// byte slices, then `finish`). Nothing is promised of the value: std leaves
/// the algorithm unspecified across releases, and `Hash` for slices writes
/// the length in the machine's native width and byte order.
#[verifier::external_body]
pub(crate) fn default_hash(key: &[u8]) -> (r: u64) {
    let mut h = std::collections::hash_map::DefaultHasher::new();
    key.hash(&mut h);
    h.finish()
}

/// Lower-case hex encoding has two digits per byte.
pub proof fn lemma_hex_len(bytes: Seq<u8>)
    ensures
        hex_lower(bytes).len() == 2 * bytes.len(),
    decreases bytes.len(),
{
    if bytes.len() > 0 {
        lemma_hex_len(bytes.drop_last());
    }
}

} // verus!
