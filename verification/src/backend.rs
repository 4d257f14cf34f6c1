//! Requests and results of storage operations, and the rules every backend applies.

use vstd::prelude::*;
use vstd::utf8::encode_utf8;
use crate::error::{err_of, StorageError, StorageErrorView, StorageResult};
use crate::digest::{calculate_etag, etag_of};
use crate::model::{ObjectInfo, ObjectMetadata};
use crate::time::Timestamp;
use crate::text::{decimal, u64_to_decimal, push_decimal};

verus! {

/// Parameters for listing objects.
pub struct ListObjectsParams {
    /// Only keys that start with this prefix.
    pub prefix: Option<String>,
    /// Group keys up to the first occurrence of this delimiter after the prefix.
    pub delimiter: Option<String>,
    /// Maximum number of keys to return (1000 when absent).
    pub max_keys: Option<usize>,
    /// Continuation token for pagination: only keys after it are listed (a listing that is
    /// cut short hands back the last key it reported as the token that continues it).
    pub continuation_token: Option<String>,
}

impl Default for ListObjectsParams {
    fn default() -> (p: ListObjectsParams)
        ensures
            p.prefix is None,
            p.delimiter is None,
            p.max_keys is None,
            p.continuation_token is None,
    {
        ListObjectsParams { prefix: None, delimiter: None, max_keys: None, continuation_token: None }
    }
}

/// A range of bytes to read: from `start`, up to `end` (exclusive) or to the end.
#[derive(Clone, Copy, Debug, PartialEq, Eq, Structural)]
pub struct Range {
    pub start: u64,
    pub end: Option<u64>,
}

/// Result of reading an object.
pub struct GetObjectResult {
    pub data: Vec<u8>,
    pub metadata: ObjectMetadata,
    pub range: Option<Range>,
}

/// Result of storing an object.
pub struct PutObjectResult {
    pub etag: String,
}

/// Result of copying an object.
pub struct CopyObjectResult {
    pub etag: String,
}

/// Result of listing objects.
pub struct ListObjectsResult {
    pub objects: Vec<ObjectInfo>,
    pub common_prefixes: Vec<String>,
    pub is_truncated: bool,
    pub next_continuation_token: Option<String>,
}

/// Information about an uploaded part.
pub struct PartInfo {
    pub part_number: u32,
    pub etag: String,
    pub size: u64,
}

/// A part named in a request to complete a multipart upload.
pub struct CompletedPart {
    pub part_number: u32,
    pub etag: String,
}

/// Result of completing a multipart upload.
pub struct CompleteMultipartResult {
    pub etag: String,
}

/// Storage statistics.
pub struct StorageStats {
    pub total_buckets: u64,
    pub total_objects: u64,
    pub total_size_bytes: u64,
}

impl Default for StorageStats {
    fn default() -> (s: StorageStats)
        ensures
            s.total_buckets == 0,
            s.total_objects == 0,
            s.total_size_bytes == 0,
    {
        StorageStats { total_buckets: 0, total_objects: 0, total_size_bytes: 0 }
    }
}

/// A character allowed in bucket names: lower-case ASCII letter, digit or `-`.
pub open spec fn bucket_name_char(c: char) -> bool {
    ('a' <= c && c <= 'z') || ('0' <= c && c <= '9') || c == '-'
}

/// S3 naming rule applied here: 3 to 63 bytes, each a lower-case letter, digit or `-`.
pub open spec fn valid_bucket_name(name: Seq<char>) -> bool {
    &&& 3 <= encode_utf8(name).len() <= 63
    &&& forall|i: int| 0 <= i < name.len() ==> bucket_name_char(#[trigger] name[i])
}

/// Object keys are 1 to 1024 bytes long.
pub open spec fn valid_object_key(key: Seq<char>) -> bool {
    0 < encode_utf8(key).len() <= 1024
}

/// The bucket naming rule, stated in characters: a name is valid exactly when it has 3 to 63
/// characters, each a lower-case ASCII letter, a decimal digit or `-`, whatever character it
/// starts or ends with (so `2024-logs` and `9ab` are valid, `ab` and `My-Bucket` are not).
pub proof fn lemma_bucket_name_rule(name: Seq<char>)
    ensures
        valid_bucket_name(name) <==> (3 <= name.len() <= 63 && forall|i: int| 0 <= i < name.len()
            ==> ('a' <= #[trigger] name[i] <= 'z' || '0' <= name[i] <= '9' || name[i] == '-')),
{
    if forall|i: int| 0 <= i < name.len() ==> bucket_name_char(#[trigger] name[i]) {
        assert(vstd::utf8::is_ascii_chars(name));
        vstd::utf8::is_ascii_chars_encode_utf8(name);
    }
}

/// Checks a bucket name.
pub fn validate_bucket_name(bucket: &str) -> (r: StorageResult<()>)
    ensures
        r is Ok <==> valid_bucket_name(bucket@),
        r is Err ==> err_of(r) == Some(StorageErrorView::InvalidBucketName(bucket@)),
{
    if bucket.as_bytes().len() < 3 || bucket.as_bytes().len() > 63 {
        return Err(StorageError::InvalidBucketName(String::from_str(bucket)));
    }
    let n = bucket.unicode_len();
    let mut i: usize = 0;
    while i < n
        invariant
            n == bucket@.len(),
            i <= n,
            forall|j: int| 0 <= j < i ==> bucket_name_char(#[trigger] bucket@[j]),
        decreases n - i,
    {
        let c = bucket.get_char(i);
        if !(('a' <= c && c <= 'z') || ('0' <= c && c <= '9') || c == '-') {
            return Err(StorageError::InvalidBucketName(String::from_str(bucket)));
        }
        i = i + 1;
    }
    proof { crate::text::lemma_utf8_len_positive(bucket@); }
    Ok(())
}

/// The object key rule for keys of ASCII characters, stated in characters: such a key is
/// valid exactly when it has 1 to 1024 characters.
pub proof fn lemma_object_key_rule(key: Seq<char>)
    requires
        vstd::utf8::is_ascii_chars(key),
    ensures
        valid_object_key(key) <==> 1 <= key.len() <= 1024,
{
    vstd::utf8::is_ascii_chars_encode_utf8(key);
}

/// Checks an object key.
pub fn validate_object_key(key: &str) -> (r: StorageResult<()>)
    ensures
        r is Ok <==> valid_object_key(key@),
        r is Err ==> err_of(r) == Some(StorageErrorView::InvalidObjectKey(key@)),
{
    if key.is_empty() || key.as_bytes().len() > 1024 {
        proof { crate::text::lemma_utf8_len_positive(key@); }
        return Err(StorageError::InvalidObjectKey(String::from_str(key)));
    }
    proof { crate::text::lemma_utf8_len_positive(key@); }
    Ok(())
}

/// The bounds a range request asks for on a body of `len` bytes: the start, and the
/// end or else the length (both as `usize`, as the backends convert them).
pub open spec fn range_bounds(r: Range, len: nat) -> (int, int) {
    let start = (r.start as usize) as int;
    let end = match r.end {
        Some(e) => (e as usize) as int,
        None => len as int,
    };
    (start, end)
}

/// A range is served when it starts inside the body and ends after its start and
/// not past the body's end.
pub open spec fn range_ok(r: Range, len: nat) -> bool {
    let (start, end) = range_bounds(r, len);
    start < len && end <= len && start < end
}

/// The message of the error for an unserved range: `start-end`.
pub open spec fn range_message(r: Range, len: nat) -> Seq<char> {
    let (start, end) = range_bounds(r, len);
    decimal(start as nat) + "-"@ + decimal(end as nat)
}

/// What a read returns of a body of `data` for an optional range.
pub open spec fn ranged(data: Seq<u8>, range: Option<Range>) -> Option<Seq<u8>> {
    match range {
        None => Some(data),
        Some(r) => if range_ok(r, data.len()) {
            let (start, end) = range_bounds(r, data.len());
            Some(data.subrange(start, end))
        } else {
            None
        },
    }
}

/// A copy of `data[start..end]`.
pub fn copy_bytes(data: &[u8], start: usize, end: usize) -> (v: Vec<u8>)
    requires
        start <= end <= data.len(),
    ensures
        v@ == data@.subrange(start as int, end as int),
{
    let mut v: Vec<u8> = Vec::new();
    let mut i: usize = start;
    while i < end
        invariant
            start <= i <= end <= data.len(),
            v@ == data@.subrange(start as int, i as int),
        decreases end - i,
    {
        v.push(data[i]);
        i = i + 1;
        assert(v@ =~= data@.subrange(start as int, i as int));
    }
    v
}

/// Cuts `data` to the requested range, or reports an invalid range.
pub fn apply_range(data: &[u8], range: &Option<Range>) -> (r: StorageResult<Vec<u8>>)
    ensures
        match ranged(data@, *range) {
            Some(d) => r matches Ok(v) && v@ == d,
            None => err_of(r) == Some(StorageErrorView::InvalidRange(range_message(range->0, data@.len()))),
        },
{
    match range {
        None => {
            let v = copy_bytes(data, 0, data.len());
            assert(data@.subrange(0, data@.len() as int) =~= data@);
            Ok(v)
        },
        Some(rg) => {
            let start = rg.start as usize;
            let end = match rg.end {
                Some(e) => e as usize,
                None => data.len(),
            };
            if start >= data.len() || end > data.len() || start >= end {
                let mut m = u64_to_decimal(start as u64);
                m.append("-");
                push_decimal(&mut m, end as u64);
                return Err(StorageError::InvalidRange(m));
            }
            Ok(copy_bytes(data, start, end))
        },
    }
}

/// The metadata an object is stored with: the given content type and user metadata, the
/// ETag and length of its bytes, and the time it is stored; and that ETag.
pub fn finalize_metadata(metadata: ObjectMetadata, data: &[u8], modified: Timestamp) -> (r: (ObjectMetadata, String))
    ensures
        r.0.etag@ == etag_of(data@),
        r.1@ == etag_of(data@),
        r.0.content_length == data@.len(),
        r.0.last_modified == modified,
        r.0.content_type == metadata.content_type,
        r.0.metadata == metadata.metadata,
{
    let etag = calculate_etag(data);
    let mut m = metadata;
    m.etag = etag.clone();
    m.content_length = data.len() as u64;
    m.last_modified = modified;
    (m, etag)
}

} // verus!
