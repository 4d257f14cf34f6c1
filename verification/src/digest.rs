//! Hashes, MACs and hex encoding, and the values built from them.

use vstd::prelude::*;
use hmac::{Hmac, Mac};
use md5::Md5;
use sha2::{Digest, Sha256};

verus! {

/// The MD5 digest of `data` (RFC 1321), as the `md-5` crate computes it.
pub uninterp spec fn md5_digest(data: Seq<u8>) -> Seq<u8>;

/// The SHA-256 digest of `data` (FIPS 180-4), as the `sha2` crate computes it.
pub uninterp spec fn sha256_digest(data: Seq<u8>) -> Seq<u8>;

/// HMAC-SHA256 (RFC 2104) of `data` under `key`, as the `hmac` crate computes it.
pub uninterp spec fn hmac_sha256(key: Seq<u8>, data: Seq<u8>) -> Seq<u8>;

#[verifier::external_type_specification]
#[verifier::external_body]
pub struct ExInvalidLength(hmac::digest::InvalidLength);

/// `Md5::digest` from `md-5`: claimed to return the 16-byte MD5 digest of `data`.
#[verifier::external_body]
fn md5_bytes(data: &[u8]) -> (d: Vec<u8>)
    ensures
        d@ == md5_digest(data@),
        d@.len() == 16,
{
    Md5::digest(data).to_vec()
}

/// `Sha256::digest` from `sha2`: claimed to return the 32-byte SHA-256 digest of `data`.
#[verifier::external_body]
fn sha256_bytes(data: &[u8]) -> (d: Vec<u8>)
    ensures
        d@ == sha256_digest(data@),
        d@.len() == 32,
{
    Sha256::digest(data).to_vec()
}

/// `Hmac::<Sha256>::new_from_slice`, `update` and `finalize` from `hmac`.
/// Claimed: the key is accepted (HMAC takes keys of any length; the source
/// never returns `InvalidLength` here) and the 32-byte tag is returned.
#[verifier::external_body]
fn hmac_sha256_bytes(key: &[u8], data: &[u8]) -> (r: Result<Vec<u8>, hmac::digest::InvalidLength>)
    ensures
        r is Ok,
        r is Ok ==> r->Ok_0@ == hmac_sha256(key@, data@),
        r is Ok ==> r->Ok_0@.len() == 32,
{
    let mut mac = <Hmac<Sha256> as Mac>::new_from_slice(key)?;
    mac.update(data);
    Ok(mac.finalize().into_bytes().to_vec())
}

/// The lower-case hexadecimal digit for `n < 16`.
pub open spec fn hex_digit(n: int) -> char {
    seq!['0', '1', '2', '3', '4', '5', '6', '7', '8', '9', 'a', 'b', 'c', 'd', 'e', 'f'][n]
}

/// Lower-case hexadecimal encoding: two digits per byte, high nibble first.
pub open spec fn hex_encode(data: Seq<u8>) -> Seq<char>
    decreases data.len(),
{
    if data.len() == 0 {
        Seq::empty()
    } else {
        hex_encode(data.drop_last()) + seq![
            hex_digit(data.last() as int / 16),
            hex_digit(data.last() as int % 16),
        ]
    }
}

/// `hex::encode`: claimed to return the lower-case hex encoding of `data`
/// (the crate maps each byte to its high and then low nibble through "0123456789abcdef").
#[verifier::external_body]
fn hex_string(data: &[u8]) -> (s: String)
    ensures
        s@ == hex_encode(data@),
{
    hex::encode(data)
}

/// The ETag of an object body: its MD5 digest in lower-case hex, in double quotes.
pub open spec fn etag_of(data: Seq<u8>) -> Seq<char> {
    seq!['"'] + hex_encode(md5_digest(data)) + seq!['"']
}

/// Computes the ETag of `data`.
pub fn calculate_etag(data: &[u8]) -> (e: String)
    ensures
        e@ == etag_of(data@),
{
    let digest = md5_bytes(data);
    let hex = hex_string(digest.as_slice());
    let mut e = String::new();
    crate::text::push_char(&mut e, '"');
    e.append(hex.as_str());
    crate::text::push_char(&mut e, '"');
    e
}

/// The SHA-256 of a payload in lower-case hex.
pub open spec fn payload_hash_of(payload: Seq<u8>) -> Seq<char> {
    hex_encode(sha256_digest(payload))
}

/// Hex SHA-256 of `payload`.
pub fn sha256_hex(payload: &[u8]) -> (h: String)
    ensures
        h@ == payload_hash_of(payload@),
{
    let d = sha256_bytes(payload);
    hex_string(d.as_slice())
}

/// HMAC-SHA256 of `data` under `key`, or the error the MAC construction reports.
pub fn hmac_sha256_tag(key: &[u8], data: &[u8]) -> (r: Result<Vec<u8>, hmac::digest::InvalidLength>)
    ensures
        r matches Ok(t) && t@ == hmac_sha256(key@, data@),
{
    hmac_sha256_bytes(key, data)
}

} // verus!

verus! {

/// The lower-case hex encoding of `data`.
pub fn hex_of(data: &[u8]) -> (s: String)
    ensures
        s@ == hex_encode(data@),
{
    hex_string(data)
}

} // verus!

verus! {

/// A lower-case hexadecimal digit.
pub open spec fn is_hex_char(c: char) -> bool {
    ('0' <= c && c <= '9') || ('a' <= c && c <= 'f')
}

/// The variant digit of an RFC 4122 UUID: `8`, `9`, `a` or `b`.
pub open spec fn uuid_variant_char(c: char) -> bool {
    c == '8' || c == '9' || c == 'a' || c == 'b'
}

/// A random (version 4) UUID in its simple form: 32 lower-case hexadecimal digits, the
/// thirteenth being the version `4` and the seventeenth the variant.
pub open spec fn simple_uuid_text(s: Seq<char>) -> bool {
    &&& s.len() == 32
    &&& forall|i: int| 0 <= i < 32 ==> is_hex_char(#[trigger] s[i])
    &&& s[12] == '4'
    &&& uuid_variant_char(s[16])
}

/// A random (version 4) UUID in its hyphenated form: lower-case hexadecimal digits in groups
/// of 8, 4, 4, 4 and 12 joined by `-`, with the version `4` and the variant digit placed as
/// in the simple form.
pub open spec fn hyphenated_uuid_text(s: Seq<char>) -> bool {
    &&& s.len() == 36
    &&& forall|i: int| 0 <= i < 36 ==> (if i == 8 || i == 13 || i == 18 || i == 23 {
        #[trigger] s[i] == '-'
    } else {
        is_hex_char(s[i])
    })
    &&& s[14] == '4'
    &&& uuid_variant_char(s[19])
}

/// Hex encodings hold only hexadecimal digits.
pub proof fn lemma_hex_chars(data: Seq<u8>)
    ensures
        forall|k: int| 0 <= k < hex_encode(data).len() ==> is_hex_char(#[trigger] hex_encode(data)[k]),
    decreases data.len(),
{
    if data.len() > 0 {
        lemma_hex_chars(data.drop_last());
        let a = hex_encode(data.drop_last());
        let hi = data.last() as int / 16;
        let lo = data.last() as int % 16;
        let digits = seq!['0', '1', '2', '3', '4', '5', '6', '7', '8', '9', 'a', 'b', 'c', 'd', 'e', 'f'];
        assert forall|n: int| 0 <= n < 16 implies is_hex_char(#[trigger] digits[n]) by {}
        assert(is_hex_char(hex_digit(hi)));
        assert(is_hex_char(hex_digit(lo)));
        let whole = hex_encode(data);
        assert forall|k: int| 0 <= k < whole.len() implies is_hex_char(#[trigger] whole[k]) by {
            if k < a.len() {
                assert(whole[k] == a[k]);
            }
        }
    }
}

} // verus!

verus! {

/// The MD5 digest of `data` in lower-case hex, without quotes.
pub fn md5_hex(data: &[u8]) -> (s: String)
    ensures
        s@ == hex_encode(md5_digest(data@)),
{
    let d = md5_bytes(data);
    hex_string(d.as_slice())
}

} // verus!
