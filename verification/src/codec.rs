//! The calls into outside crates that the node's logic makes: base64,
//! JSON of plain values, the block data hash, and ed25519 keys, with a few
//! text helpers of std. Each function here is believed, not proved; its
//! doc comment says what it claims of the call.
use vstd::prelude::*;
use base64::Engine;
use borsh::BorshSerialize;
use hotstuff_rs::types::crypto_primitives::{CryptoHasher, Digest, SigningKey, VerifyingKey};
use hotstuff_rs::types::data_types::{Data, Datum};
use crate::bytes::u32_le;

verus! {

/// The text that base64 (standard alphabet, no padding) gives for `bytes`.
pub uninterp spec fn base64_text(bytes: Seq<u8>) -> Seq<char>;

/// The bytes that base64 (standard alphabet, no padding accepted) decodes
/// from `text`, or `None` where the text is not such base64.
pub uninterp spec fn base64_bytes(text: Seq<char>) -> Option<Seq<u8>>;

/// Whether ed25519 accepts `bytes` as a verifying key (a point that
/// decompresses).
pub uninterp spec fn verifying_key_accepts(bytes: Seq<u8>) -> bool;

/// The ed25519 verifying key that belongs to the secret key `secret`.
pub uninterp spec fn ed25519_public_key(secret: Seq<u8>) -> Seq<u8>;

/// The SHA-256 digest of `bytes`.
pub uninterp spec fn sha256_digest(bytes: Seq<u8>) -> Seq<u8>;

/// The JSON text of a list of strings.
pub uninterp spec fn json_strings(list: Seq<Seq<char>>) -> Seq<u8>;

/// The list of strings that the JSON text `bytes` holds, if it holds one.
pub uninterp spec fn json_strings_parsed(bytes: Seq<u8>) -> Option<Seq<Seq<char>>>;

/// The JSON text of a list of (price key, position) pairs.
pub uninterp spec fn json_levels(levels: Seq<(i64, u64)>) -> Seq<u8>;

/// The list of (price key, position) pairs that the JSON text `bytes`
/// holds, if it holds one.
pub uninterp spec fn json_levels_parsed(bytes: Seq<u8>) -> Option<Seq<(i64, u64)>>;

/// `text` without leading and trailing Unicode white space.
pub uninterp spec fn unicode_trim(text: Seq<char>) -> Seq<char>;

/// `text` in Unicode lower case.
pub uninterp spec fn unicode_lowercase(text: Seq<char>) -> Seq<char>;

/// The views of a list of strings.
pub open spec fn string_views(list: Seq<String>) -> Seq<Seq<char>> {
    list.map_values(|s: String| s@)
}

/// Borsh encoding of a byte string: its length as four little-endian
/// bytes, then the bytes.
pub open spec fn borsh_byte_string(b: Seq<u8>) -> Seq<u8> {
    u32_le(b.len()) + b
}

/// Borsh encoding of the items of a list of byte strings, one after another.
pub open spec fn borsh_byte_strings(list: Seq<Seq<u8>>) -> Seq<u8>
    decreases list.len(),
{
    if list.len() == 0 {
        Seq::empty()
    } else {
        borsh_byte_strings(list.drop_last()) + borsh_byte_string(list.last())
    }
}

/// Borsh encoding of block data made of the datums `payloads`: the number
/// of datums as four little-endian bytes, then each datum as a byte string.
pub open spec fn borsh_block_data(payloads: Seq<Seq<u8>>) -> Seq<u8> {
    u32_le(payloads.len()) + borsh_byte_strings(payloads)
}

/// The byte views of a list of byte vectors.
pub open spec fn byte_views(list: Seq<Vec<u8>>) -> Seq<Seq<u8>> {
    list.map_values(|v: Vec<u8>| v@)
}

/// `base64::engine::general_purpose::STANDARD_NO_PAD.encode`: the text is
/// the base64 of `bytes`, and decoding it with the same engine gives the
/// bytes back.
#[verifier::external_body]
pub(crate) fn base64_encode(bytes: &[u8]) -> (text: String)
    requires
        bytes.len() / 3 * 4 + 4 <= usize::MAX,
    ensures
        text@ == base64_text(bytes@),
        base64_bytes(text@) == Some(bytes@),
{
    base64::engine::general_purpose::STANDARD_NO_PAD.encode(bytes)
}

/// `base64::engine::general_purpose::STANDARD_NO_PAD.decode`: the decoded
/// bytes, or `None` where the engine refuses the text.
#[verifier::external_body]
pub(crate) fn base64_decode(text: &str) -> (bytes: Option<Vec<u8>>)
    ensures
        match bytes {
            Some(b) => base64_bytes(text@) == Some(b@),
            None => base64_bytes(text@) is None,
        },
{
    match base64::engine::general_purpose::STANDARD_NO_PAD.decode(text) {
        Ok(b) => Some(b),
        Err(_) => None,
    }
}

/// `VerifyingKey::from_bytes` of ed25519-dalek: whether it returns `Ok`.
#[verifier::external_body]
pub(crate) fn verifying_key_is_valid(bytes: &[u8; 32]) -> (ok: bool)
    ensures
        ok == verifying_key_accepts(bytes@),
{
    VerifyingKey::from_bytes(bytes).is_ok()
}

/// `SigningKey::from_bytes(secret).verifying_key()` of ed25519-dalek, as
/// bytes: the verifying key that belongs to the secret key.
#[verifier::external_body]
pub(crate) fn public_key_of(secret: &[u8; 32]) -> (public: [u8; 32])
    ensures
        public@ == ed25519_public_key(secret@),
{
    SigningKey::from_bytes(secret).verifying_key().to_bytes()
}

/// SHA-256 (`hotstuff_rs`'s `CryptoHasher`) of `bytes`.
#[verifier::external_body]
pub(crate) fn sha256(bytes: &[u8]) -> (digest: [u8; 32])
    ensures
        digest@ == sha256_digest(bytes@),
{
    let mut hasher = CryptoHasher::new();
    hasher.update(bytes);
    hasher.finalize().into()
}

/// `BorshSerialize::try_to_vec` of the block `Data` made of the datums
/// `payloads`: the count of datums, then each datum's length and bytes,
/// the numbers as four little-endian bytes. Borsh refuses only lengths
/// that do not fit in 32 bits, which `requires` leaves out.
#[verifier::external_body]
pub(crate) fn block_data_bytes(payloads: &Vec<Vec<u8>>) -> (encoded: Vec<u8>)
    requires
        payloads.len() <= u32::MAX,
        forall|i: int| 0 <= i < payloads.len() ==> (#[trigger] payloads@[i]).len() <= u32::MAX,
    ensures
        encoded@ == borsh_block_data(byte_views(payloads@)),
{
    let data = Data::new(payloads.iter().map(|p| Datum::new(p.clone())).collect());
    data.try_to_vec().unwrap()
}

/// `serde_json::from_slice::<Vec<String>>(bytes).ok()`.
#[verifier::external_body]
pub(crate) fn parse_string_list(bytes: &[u8]) -> (list: Option<Vec<String>>)
    ensures
        match list {
            Some(l) => json_strings_parsed(bytes@) == Some(string_views(l@)),
            None => json_strings_parsed(bytes@) is None,
        },
{
    serde_json::from_slice::<Vec<String>>(bytes).ok()
}

/// `serde_json::to_vec` of a list of strings, which cannot fail for it; the
/// JSON text parses back to the same list.
#[verifier::external_body]
pub(crate) fn string_list_json(list: &Vec<String>) -> (bytes: Vec<u8>)
    ensures
        bytes@ == json_strings(string_views(list@)),
        json_strings_parsed(bytes@) == Some(string_views(list@)),
{
    serde_json::to_vec(list).unwrap()
}

/// `serde_json::from_slice::<Vec<(i64, u64)>>(bytes).ok()`.
#[verifier::external_body]
pub(crate) fn parse_levels(bytes: &[u8]) -> (levels: Option<Vec<(i64, u64)>>)
    ensures
        match levels {
            Some(l) => json_levels_parsed(bytes@) == Some(l@),
            None => json_levels_parsed(bytes@) is None,
        },
{
    serde_json::from_slice::<Vec<(i64, u64)>>(bytes).ok()
}

/// `serde_json::to_vec` of a list of (price key, position) pairs, which
/// cannot fail for it; the JSON text parses back to the same list.
#[verifier::external_body]
pub(crate) fn levels_json(levels: &Vec<(i64, u64)>) -> (bytes: Vec<u8>)
    ensures
        bytes@ == json_levels(levels@),
        json_levels_parsed(bytes@) == Some(levels@),
{
    serde_json::to_vec(levels).unwrap()
}

/// `str::trim` of std: the text without leading and trailing white space.
#[verifier::external_body]
pub(crate) fn trim(text: &str) -> (trimmed: &str)
    ensures
        trimmed@ == unicode_trim(text@),
{
    text.trim()
}

/// `str::to_lowercase` of std.
#[verifier::external_body]
pub(crate) fn to_lowercase(text: &str) -> (lower: String)
    ensures
        lower@ == unicode_lowercase(text@),
{
    text.to_lowercase()
}

} // verus!
