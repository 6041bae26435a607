//! The cryptographic and encoding primitives that the protocol relies on.

use base64::Engine;
use blake2::digest::{Update, VariableOutput};
use vstd::prelude::*;

verus! {

/// The BLAKE2b digest of `data` with an output of `len` bytes.
pub uninterp spec fn blake2b_of(data: Seq<u8>, len: nat) -> Seq<u8>;

/// The MD5 digest of `data`.
pub uninterp spec fn md5_of(data: Seq<u8>) -> Seq<u8>;

/// The bytes that standard base64 (with padding) decodes `text` into, if it is valid.
pub uninterp spec fn base64_decoded(text: Seq<char>) -> Option<Seq<u8>>;

/// The unsigned integer stored under `key` in the JSON object `text`, if there is one.
pub uninterp spec fn json_u64_field(text: Seq<u8>, key: Seq<char>) -> Option<u64>;

/// One lower-case hexadecimal digit.
pub open spec fn hex_digit(v: u8) -> char {
    if v < 10 {
        ((v + 48) as u8) as char
    } else {
        ((v + 87) as u8) as char
    }
}

/// Two lower-case hexadecimal digits per byte, high nibble first.
pub open spec fn hex_of(b: Seq<u8>) -> Seq<char>
    decreases b.len(),
{
    if b.len() == 0 {
        Seq::empty()
    } else {
        let last = b.last();
        hex_of(b.drop_last()) + seq![hex_digit(last / 16), hex_digit(last % 16)]
    }
}

/// Relies on `blake2::Blake2bVar`: `new` refuses output sizes above 64 bytes, and
/// `finalize_variable` fills a buffer of the requested size with the digest of
/// what `update` was given.
#[verifier::external_body]
pub(crate) fn blake2b(data: &[u8], len: usize) -> (r: Option<Vec<u8>>)
    ensures
        r.is_some() <==> len <= 64,
        r matches Some(d) ==> d@ == blake2b_of(data@, len as nat) && d@.len() == len,
{
    let mut hasher = blake2::Blake2bVar::new(len).ok()?;
    hasher.update(data);
    let mut out = vec![0u8; len];
    hasher.finalize_variable(&mut out).ok()?;
    Some(out)
}

/// Relies on `md5::compute`, whose digest is an array of 16 bytes.
#[verifier::external_body]
pub(crate) fn md5(data: &[u8]) -> (r: Vec<u8>)
    ensures
        r@ == md5_of(data@),
        r@.len() == 16,
{
    md5::compute(data).0.to_vec()
}

/// Relies on `hex::encode`: two lower-case digits per byte, in order.
#[verifier::external_body]
pub(crate) fn to_hex(data: &[u8]) -> (r: String)
    ensures
        r@ == hex_of(data@),
{
    hex::encode(data)
}

/// Relies on `base64::engine::general_purpose::STANDARD.decode`, which fails on
/// text that is not valid padded base64.
#[verifier::external_body]
pub(crate) fn decode_base64(text: &str) -> (r: Option<Vec<u8>>)
    ensures
        r.is_some() == base64_decoded(text@).is_some(),
        r matches Some(b) ==> base64_decoded(text@) == Some(b@),
{
    base64::engine::general_purpose::STANDARD.decode(text).ok()
}

/// Relies on `serde_json::from_slice` into a `serde_json::Value`, then
/// `Value::get(key)` and `Value::as_u64`: the field's value when `text` is a JSON
/// object holding an unsigned integer under `key`.
#[verifier::external_body]
pub(crate) fn json_u64(text: &[u8], key: &str) -> (r: Option<u64>)
    ensures
        r == json_u64_field(text@, key@),
{
    let value: serde_json::Value = serde_json::from_slice(text).ok()?;
    value.get(key)?.as_u64()
}

} // verus!
