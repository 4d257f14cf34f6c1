//! The S3 request layer: errors, request parsing, response headers and routing decisions.

use vstd::prelude::*;
use crate::auth::{find_header, first_header};
use crate::backend::{ListObjectsParams, ListObjectsResult, Range};
use crate::digest::{hex_encode, md5_digest, md5_hex};
use crate::error::{storage_message, storage_s3_code, storage_status, StorageError, StorageErrorView, StorageResult};
use crate::model::{distinct_names, pairs_map, ObjectInfo, ObjectMetadata};
use crate::text::{
    chars_of, decimal, find, find_from, is_prefix, lemma_find_from_bounds, parse_u64, parse_unsigned, slice_range,
    split_char, split_on_char, starts_with, string_from_chars, u64_to_decimal, views,
};
use crate::time::{opt_view, rfc2822, rfc2822_text, rfc2822_year_range};
use crate::xml::{error_xml, ListBucketResult, ObjectXml};

verus! {

/// An S3 error: a storage error and the id of the request it answers.
pub struct S3Error {
    pub storage_error: StorageError,
    pub request_id: String,
}

impl S3Error {
    /// The error for a storage error, with a fresh random request id.
    pub fn new(storage_error: StorageError) -> (e: S3Error)
        ensures
            e.storage_error@ == storage_error@,
            crate::digest::hyphenated_uuid_text(e.request_id@),
    {
        S3Error { storage_error, request_id: crate::memory::new_uuid() }
    }

    /// The error for a storage error (as `From` converts it).
    pub fn from(error: StorageError) -> (e: S3Error)
        ensures
            e.storage_error@ == error@,
            crate::digest::hyphenated_uuid_text(e.request_id@),
    {
        S3Error::new(error)
    }

    /// The XML body of the error response: code, message, request id and host id.
    pub fn to_xml(&self) -> (s: String)
        ensures
            s@ == error_xml(storage_s3_code(self.storage_error), storage_message(self.storage_error), self.request_id@),
    {
        let response = crate::xml::S3ErrorResponse {
            code: String::from_str(self.storage_error.s3_code()),
            message: self.storage_error.message(),
            request_id: self.request_id.clone(),
            host_id: String::from_str("tinystore"),
        };
        response.to_xml()
    }

    /// The HTTP status of the error response.
    pub fn status_code(&self) -> (s: u16)
        ensures
            s == storage_status(self.storage_error),
    {
        self.storage_error.status_code()
    }
}

/// Result of S3 operations.
pub type S3Result<T> = Result<T, S3Error>;

/// How a `Range` header is read: `bytes=START-END` or `bytes=START-`, with exactly one `-`.
/// HTTP ranges include their last byte while a `Range` ends before `end`, so `bytes=a-b`
/// gives `end` = b + 1 (no end where b is the largest `u64`); an end that is not a number is
/// read as no end.
pub open spec fn range_of(s: Seq<char>) -> Option<Range> {
    if !is_prefix("bytes="@, s) {
        None
    } else {
        let parts = split_char(s.subrange(6, s.len() as int), '-');
        if parts.len() != 2 {
            None
        } else {
            match parse_unsigned(parts[0], u64::MAX as nat) {
                None => None,
                Some(start) => Some(Range {
                    start: start as u64,
                    end: if parts[1].len() == 0 {
                        None
                    } else {
                        match parse_unsigned(parts[1], u64::MAX as nat) {
                            Some(e) => if e < u64::MAX { Some((e + 1) as u64) } else { None },
                            None => None,
                        }
                    },
                }),
            }
        }
    }
}

/// Reads an HTTP `Range` header.
pub fn parse_range(range_str: &str) -> (r: Option<Range>)
    ensures
        r == range_of(range_str@),
{
    proof { reveal_strlit("bytes="); }
    let rc = chars_of(range_str);
    let prefix = chars_of("bytes=");
    if !starts_with(rc.as_slice(), prefix.as_slice()) {
        return None;
    }
    assert(prefix@.len() == 6);
    let parts = split_on_char(slice_range(rc.as_slice(), 6, rc.len()), '-');
    if parts.len() != 2 {
        return None;
    }
    let start = match parse_u64(parts[0].as_str()) {
        Some(v) => v,
        None => return None,
    };
    let end = if parts[1].unicode_len() == 0 {
        None
    } else {
        match parse_u64(parts[1].as_str()) {
            Some(e) => if e < u64::MAX { Some(e + 1) } else { None },
            None => None,
        }
    };
    assert(views(parts@)[0] == parts@[0]@ && views(parts@)[1] == parts@[1]@);
    Some(Range { start, end })
}

/// A `Range` header written as `bytes=a-b` reads back as the bytes from `a` through `b`:
/// start `a` and end `b + 1` (no end where `b` is the largest `u64`).
pub proof fn lemma_range_header_round_trip(a: u64, b: u64)
    ensures
        range_of("bytes="@ + decimal(a as nat) + "-"@ + decimal(b as nat)) == Some(Range {
            start: a,
            end: if b < u64::MAX { Some((b + 1) as u64) } else { None },
        }),
{
    reveal_strlit("bytes=");
    reveal_strlit("-");
    let da = decimal(a as nat);
    let db = decimal(b as nat);
    let s = "bytes="@ + da + "-"@ + db;
    crate::text::lemma_decimal_digits(a as nat);
    crate::text::lemma_decimal_digits(b as nat);
    assert(s.subrange(0, 6) =~= "bytes="@);
    assert(is_prefix("bytes="@, s));
    let rest = s.subrange(6, s.len() as int);
    assert(rest =~= da + seq!['-'] + db);
    crate::text::lemma_split_concat(da, db, '-');
    assert forall|i: int| 0 <= i < da.len() implies da[i] != '-' by {
        assert(crate::text::is_digit(da[i]));
    }
    assert forall|i: int| 0 <= i < db.len() implies db[i] != '-' by {
        assert(crate::text::is_digit(db[i]));
    }
    crate::text::lemma_split_plain(da, '-');
    crate::text::lemma_split_plain(db, '-');
    let parts = split_char(rest, '-');
    assert(parts =~= seq![da, db]);
}

/// `s` without its leading slashes.
pub open spec fn strip_slashes(s: Seq<char>) -> Seq<char>
    decreases s.len(),
{
    if s.len() > 0 && s[0] == '/' { strip_slashes(s.drop_first()) } else { s }
}

/// The source bucket and key of a copy: after the leading slashes, up to and after the first `/`.
pub open spec fn copy_source_of(s: Seq<char>) -> Option<(Seq<char>, Seq<char>)> {
    let t = strip_slashes(s);
    match find_from(t, "/"@, 0) {
        Some(i) => Some((t.subrange(0, i), t.subrange(i + 1, t.len() as int))),
        None => None,
    }
}

/// Reads the `x-amz-copy-source` header (`None` where its value is not text) as a
/// source bucket and key.
pub fn parse_copy_source(source: &Option<String>) -> (r: StorageResult<(String, String)>)
    ensures
        match source {
            None => r matches Err(e) && e@ == StorageErrorView::InvalidObjectKey("Invalid copy source"@),
            Some(s) => match copy_source_of(s@) {
                Some((b, k)) => r matches Ok((rb, rk)) && rb@ == b && rk@ == k,
                None => r matches Err(e) && e@ == StorageErrorView::InvalidObjectKey("Invalid copy source format"@),
            },
        },
{
    let s = match source {
        Some(s) => s,
        None => return Err(StorageError::InvalidObjectKey(String::from_str("Invalid copy source"))),
    };
    let sc = chars_of(s.as_str());
    let mut a: usize = 0;
    assert(sc@.subrange(0, sc@.len() as int) =~= sc@);
    while a < sc.len() && sc[a] == '/'
        invariant
            a <= sc@.len(),
            strip_slashes(sc@) == strip_slashes(sc@.subrange(a as int, sc@.len() as int)),
        decreases sc.len() - a,
    {
        assert(sc@.subrange(a as int, sc@.len() as int).drop_first() =~= sc@.subrange(a + 1, sc@.len() as int));
        a = a + 1;
    }
    let t = slice_range(sc.as_slice(), a, sc.len());
    assert(strip_slashes(t@) == t@);
    let slash: Vec<char> = vec!['/'];
    proof { reveal_strlit("/"); }
    assert(slash@ =~= "/"@);
    match find(t, slash.as_slice(), 0) {
        Some(i) => {
            proof { lemma_find_from_bounds(t@, slash@, 0); }
            let bucket = string_from_chars(slice_range(t, 0, i));
            let key = string_from_chars(slice_range(t, i + 1, t.len()));
            Ok((bucket, key))
        },
        None => Err(StorageError::InvalidObjectKey(String::from_str("Invalid copy source format"))),
    }
}

/// The user metadata that `x-amz-meta-*` headers with text values give, later ones winning.
pub open spec fn amz_meta_map(headers: Seq<(String, Option<String>)>) -> Map<Seq<char>, Seq<char>>
    decreases headers.len(),
{
    if headers.len() == 0 {
        Map::empty()
    } else {
        let init = amz_meta_map(headers.drop_last());
        let (name, value) = headers.last();
        match value {
            Some(v) => if is_prefix("x-amz-meta-"@, name@) {
                init.insert(name@.subrange(11, name@.len() as int), v@)
            } else {
                init
            },
            None => init,
        }
    }
}

/// The metadata a stored object gets from its upload request: the body's length and
/// unquoted hex MD5, the first `content-type` header if its value is text, and the
/// `x-amz-meta-*` headers.
pub fn request_metadata(headers: &Vec<(String, Option<String>)>, body: &[u8]) -> (m: ObjectMetadata)
    ensures
        m.content_length == body@.len(),
        m.etag@ == hex_encode(md5_digest(body@)),
        m.content_type matches Some(c) ==> first_header(headers@, "content-type"@) == Some(Some(c@)),
        m.content_type is None ==> !(first_header(headers@, "content-type"@) matches Some(Some(_))),
        m.meta_map() == amz_meta_map(headers@),
        distinct_names(m.metadata@),
{
    proof { reveal_strlit("x-amz-meta-"); }
    let content_type = match find_header(headers, "content-type") {
        Some(Some(v)) => Some(v),
        _ => None,
    };
    let etag = md5_hex(body);
    let mut metadata = ObjectMetadata::new(body.len() as u64, etag);
    if let Some(ct) = content_type {
        metadata = metadata.with_content_type(ct);
    }
    assert(metadata.meta_map() =~= amz_meta_map(headers@.subrange(0, 0)));
    let prefix = chars_of("x-amz-meta-");
    let mut i: usize = 0;
    while i < headers.len()
        invariant
            i <= headers@.len(),
            prefix@ == "x-amz-meta-"@,
            prefix@.len() == 11,
            metadata.content_length == body@.len(),
            metadata.etag@ == hex_encode(md5_digest(body@)),
            metadata.content_type matches Some(c) ==> first_header(headers@, "content-type"@) == Some(Some(c@)),
            metadata.content_type is None ==> !(first_header(headers@, "content-type"@) matches Some(Some(_))),
            metadata.meta_map() == amz_meta_map(headers@.subrange(0, i as int)),
            distinct_names(metadata.metadata@),
        decreases headers.len() - i,
    {
        assert(headers@.subrange(0, i + 1).drop_last() =~= headers@.subrange(0, i as int));
        let nc = chars_of(headers[i].0.as_str());
        if let Some(v) = &headers[i].1 {
            if starts_with(nc.as_slice(), prefix.as_slice()) {
                let suffix = string_from_chars(slice_range(nc.as_slice(), 11, nc.len()));
                metadata = metadata.with_metadata(suffix, v.clone());
            }
        }
        i = i + 1;
    }
    assert(headers@.subrange(0, headers@.len() as int) =~= headers@);
    metadata
}

/// The headers of a response that returns an object or its metadata: length, ETag,
/// RFC 2822 modification time (empty where the time has no rendering), the content type
/// if any, and `x-amz-meta-NAME` for each user entry, in order.
pub open spec fn object_header_list(m: ObjectMetadata) -> Seq<(Seq<char>, Seq<char>)> {
    seq![
        ("content-length"@, decimal(m.content_length as nat)),
        ("etag"@, m.etag@),
        ("last-modified"@, match rfc2822_text(m.last_modified.secs, m.last_modified.nanos) {
            Some(t) => t,
            None => Seq::empty(),
        }),
    ] + match m.content_type {
        Some(c) => seq![("content-type"@, c@)],
        None => Seq::empty(),
    } + m.metadata@.map_values(|p: (String, String)| ("x-amz-meta-"@ + p.0@, p.1@))
}

/// The views of a list of header pairs.
pub open spec fn header_views(v: Seq<(String, String)>) -> Seq<(Seq<char>, Seq<char>)> {
    v.map_values(|p: (String, String)| (p.0@, p.1@))
}

/// The response headers for an object's metadata.
pub fn object_headers(m: &ObjectMetadata) -> (h: Vec<(String, String)>)
    requires
        rfc2822_year_range(m.last_modified.secs),
    ensures
        header_views(h@) == object_header_list(*m),
{
    let mut h: Vec<(String, String)> = Vec::new();
    h.push((String::from_str("content-length"), u64_to_decimal(m.content_length)));
    h.push((String::from_str("etag"), m.etag.clone()));
    let modified = match rfc2822(m.last_modified) {
        Some(t) => t,
        None => String::new(),
    };
    h.push((String::from_str("last-modified"), modified));
    match &m.content_type {
        Some(c) => h.push((String::from_str("content-type"), c.clone())),
        None => {},
    }
    let ghost head = header_views(h@);
    let mut i: usize = 0;
    while i < m.metadata.len()
        invariant
            i <= m.metadata@.len(),
            header_views(h@) == head + m.metadata@.subrange(0, i as int).map_values(|p: (String, String)| ("x-amz-meta-"@ + p.0@, p.1@)),
        decreases m.metadata.len() - i,
    {
        let mut name = String::from_str("x-amz-meta-");
        name.append(m.metadata[i].0.as_str());
        let ghost before = header_views(h@);
        h.push((name, m.metadata[i].1.clone()));
        assert(header_views(h@) =~= before.push(("x-amz-meta-"@ + m.metadata@[i as int].0@, m.metadata@[i as int].1@)));
        assert(m.metadata@.subrange(0, i + 1).map_values(|p: (String, String)| ("x-amz-meta-"@ + p.0@, p.1@))
            =~= m.metadata@.subrange(0, i as int).map_values(|p: (String, String)| ("x-amz-meta-"@ + p.0@, p.1@))
                .push(("x-amz-meta-"@ + m.metadata@[i as int].0@, m.metadata@[i as int].1@)));
        i = i + 1;
    }
    assert(m.metadata@.subrange(0, m.metadata@.len() as int) =~= m.metadata@);
    assert(header_views(h@) =~= object_header_list(*m));
    h
}

/// The value of query parameter `name` (of repeated parameters the last counts).
pub open spec fn param(params: Seq<(String, String)>, name: Seq<char>) -> Option<Seq<char>> {
    if pairs_map(params).dom().contains(name) { Some(pairs_map(params)[name]) } else { None }
}

/// The value of query parameter `name`.
pub fn get_param(params: &Vec<(String, String)>, name: &str) -> (r: Option<String>)
    ensures
        opt_view(r) == param(params@, name@),
{
    let target = String::from_str(name);
    let mut found: Option<String> = None;
    let mut i: usize = 0;
    assert(params@.subrange(0, 0) =~= Seq::<(String, String)>::empty());
    while i < params.len()
        invariant
            i <= params@.len(),
            target@ == name@,
            opt_view(found) == param(params@.subrange(0, i as int), name@),
        decreases params.len() - i,
    {
        assert(params@.subrange(0, i + 1).drop_last() =~= params@.subrange(0, i as int));
        if params[i].0 == target {
            found = Some(params[i].1.clone());
        }
        i = i + 1;
    }
    assert(params@.subrange(0, params@.len() as int) =~= params@);
    found
}

/// Whether the query has parameter `name`.
pub fn has_param(params: &Vec<(String, String)>, name: &str) -> (b: bool)
    ensures
        b == param(params@, name@) is Some,
{
    get_param(params, name).is_some()
}

/// `s.parse::<usize>().ok()`.
pub fn parse_usize(s: &str) -> (r: Option<usize>)
    ensures
        r == (match parse_unsigned(s@, usize::MAX as nat) {
            Some(v) => Some(v as usize),
            None => None::<usize>,
        }),
{
    match parse_u64(s) {
        Some(v) => {
            if v as u128 <= usize::MAX as u128 {
                Some(v as usize)
            } else {
                None
            }
        },
        None => None,
    }
}

/// The listing parameters of an object listing request: `prefix`, `delimiter`, `max-keys`
/// (ignored unless a number) and `continuation-token`.
pub fn list_params_from_query(params: &Vec<(String, String)>) -> (p: ListObjectsParams)
    ensures
        opt_view(p.prefix) == param(params@, "prefix"@),
        opt_view(p.delimiter) == param(params@, "delimiter"@),
        p.max_keys == (match param(params@, "max-keys"@) {
            Some(v) => match parse_unsigned(v, usize::MAX as nat) {
                Some(n) => Some(n as usize),
                None => None::<usize>,
            },
            None => None::<usize>,
        }),
        opt_view(p.continuation_token) == param(params@, "continuation-token"@),
{
    let max_keys = match get_param(params, "max-keys") {
        Some(s) => parse_usize(s.as_str()),
        None => None,
    };
    ListObjectsParams {
        prefix: get_param(params, "prefix"),
        delimiter: get_param(params, "delimiter"),
        max_keys,
        continuation_token: get_param(params, "continuation-token"),
    }
}

/// The response to an object listing of bucket `bucket` that asked for `prefix` and `max_keys`
/// (1000 when absent).
pub fn list_bucket_result(
    bucket: String,
    prefix: Option<String>,
    max_keys: Option<usize>,
    listing: ListObjectsResult,
) -> (r: ListBucketResult)
    ensures
        r.name@ == bucket@,
        opt_view(r.prefix) == opt_view(prefix),
        r.max_keys == (match max_keys { Some(n) => n, None => 1000 }),
        r.is_truncated == listing.is_truncated,
        r.contents@.len() == listing.objects@.len(),
        forall|i: int| 0 <= i < r.contents@.len() ==> {
            let o = #[trigger] r.contents@[i];
            let info = listing.objects@[i];
            &&& o.key@ == info.key@
            &&& o.last_modified@ == crate::xml::rfc3339_view(info.last_modified)
            &&& o.etag@ == info.etag@
            &&& o.size == info.size
            &&& o.storage_class@ == info.storage_class@
        },
        opt_view(r.next_continuation_token) == opt_view(listing.next_continuation_token),
{
    let mut contents: Vec<ObjectXml> = Vec::new();
    let objs = &listing.objects;
    let mut i: usize = 0;
    while i < objs.len()
        invariant
            i <= objs@.len(),
            i == contents@.len(),
            forall|j: int| 0 <= j < i ==> {
                let o = #[trigger] contents@[j];
                let info = objs@[j];
                &&& o.key@ == info.key@
                &&& o.last_modified@ == crate::xml::rfc3339_view(info.last_modified)
                &&& o.etag@ == info.etag@
                &&& o.size == info.size
                &&& o.storage_class@ == info.storage_class@
            },
        decreases objs.len() - i,
    {
        let o = &objs[i];
        let copy = ObjectInfo {
            key: o.key.clone(),
            last_modified: o.last_modified,
            etag: o.etag.clone(),
            size: o.size,
            storage_class: o.storage_class.clone(),
        };
        contents.push(ObjectXml::from(copy));
        i = i + 1;
    }
    ListBucketResult {
        name: bucket,
        prefix,
        max_keys: match max_keys {
            Some(n) => n,
            None => 1000,
        },
        is_truncated: listing.is_truncated,
        contents,
        next_continuation_token: listing.next_continuation_token,
    }
}

/// The part number and upload id of a part upload request.
pub fn upload_part_params(params: &Vec<(String, String)>) -> (r: StorageResult<(u32, String)>)
    ensures
        match param(params@, "partNumber"@) {
            Some(v) if parse_unsigned(v, u32::MAX as nat) is Some => match param(params@, "uploadId"@) {
                Some(id) => r matches Ok((n, rid)) && n as nat == parse_unsigned(v, u32::MAX as nat)->0 && rid@ == id,
                None => r matches Err(e) && e@ == StorageErrorView::InvalidObjectKey("Missing uploadId"@),
            },
            _ => r matches Err(e) && e@ == StorageErrorView::InvalidObjectKey("Missing partNumber"@),
        },
{
    let n = match get_param(params, "partNumber") {
        Some(s) => match parse_u64(s.as_str()) {
            Some(v) => if v <= u32::MAX as u64 { Some(v as u32) } else { None },
            None => None,
        },
        None => None,
    };
    let n = match n {
        Some(n) => n,
        None => return Err(StorageError::InvalidObjectKey(String::from_str("Missing partNumber"))),
    };
    let id = upload_id_param(params)?;
    Ok((n, id))
}

/// The upload id of a multipart request.
pub fn upload_id_param(params: &Vec<(String, String)>) -> (r: StorageResult<String>)
    ensures
        match param(params@, "uploadId"@) {
            Some(id) => r matches Ok(rid) && rid@ == id,
            None => r matches Err(e) && e@ == StorageErrorView::InvalidObjectKey("Missing uploadId"@),
        },
{
    match get_param(params, "uploadId") {
        Some(id) => Ok(id),
        None => Err(StorageError::InvalidObjectKey(String::from_str("Missing uploadId"))),
    }
}

/// The location of a completed upload: `/bucket/key`.
pub fn upload_location(bucket: &str, key: &str) -> (s: String)
    ensures
        s@ == "/"@ + bucket@ + "/"@ + key@,
{
    let mut s = String::from_str("/");
    s.append(bucket);
    s.append("/");
    s.append(key);
    s
}

/// The S3 operation a request asks for.
#[derive(PartialEq, Eq, Structural, Debug, Clone, Copy)]
pub enum S3Operation {
    ListObjects,
    GetBucketLocation,
    ListMultipartUploads,
    DeleteObjects,
    GetObject,
    ListParts,
    PutObject,
    CopyObject,
    UploadPart,
    CreateMultipartUpload,
    CompleteMultipartUpload,
    DeleteObject,
    AbortMultipartUpload,
    BadRequest,
}

/// `GET /{bucket}`: the location with `location`, the uploads with `uploads`, else the objects.
pub fn handle_bucket_get(params: &Vec<(String, String)>) -> (op: S3Operation)
    ensures
        op == (if param(params@, "location"@) is Some {
            S3Operation::GetBucketLocation
        } else if param(params@, "uploads"@) is Some {
            S3Operation::ListMultipartUploads
        } else {
            S3Operation::ListObjects
        }),
{
    if has_param(params, "location") {
        S3Operation::GetBucketLocation
    } else if has_param(params, "uploads") {
        S3Operation::ListMultipartUploads
    } else {
        S3Operation::ListObjects
    }
}

/// `POST /{bucket}`: a bulk delete with `delete`, else a bad request.
pub fn handle_bucket_post(params: &Vec<(String, String)>) -> (op: S3Operation)
    ensures
        op == (if param(params@, "delete"@) is Some { S3Operation::DeleteObjects } else { S3Operation::BadRequest }),
{
    if has_param(params, "delete") { S3Operation::DeleteObjects } else { S3Operation::BadRequest }
}

/// `GET /{bucket}/{key}`: the parts with `uploadId`, else the object.
pub fn handle_object_get(params: &Vec<(String, String)>) -> (op: S3Operation)
    ensures
        op == (if param(params@, "uploadId"@) is Some { S3Operation::ListParts } else { S3Operation::GetObject }),
{
    if has_param(params, "uploadId") { S3Operation::ListParts } else { S3Operation::GetObject }
}

/// `PUT /{bucket}/{key}`: a part with both `partNumber` and `uploadId`; else a copy when the
/// request has an `x-amz-copy-source` header; else a store.
pub fn handle_object_put(params: &Vec<(String, String)>, has_copy_source: bool) -> (op: S3Operation)
    ensures
        op == (if param(params@, "partNumber"@) is Some && param(params@, "uploadId"@) is Some {
            S3Operation::UploadPart
        } else if has_copy_source {
            S3Operation::CopyObject
        } else {
            S3Operation::PutObject
        }),
{
    if has_param(params, "partNumber") && has_param(params, "uploadId") {
        S3Operation::UploadPart
    } else if has_copy_source {
        S3Operation::CopyObject
    } else {
        S3Operation::PutObject
    }
}

/// `POST /{bucket}/{key}`: start an upload with `uploads`, complete one with `uploadId`,
/// else a bad request.
pub fn handle_object_post(params: &Vec<(String, String)>) -> (op: S3Operation)
    ensures
        op == (if param(params@, "uploads"@) is Some {
            S3Operation::CreateMultipartUpload
        } else if param(params@, "uploadId"@) is Some {
            S3Operation::CompleteMultipartUpload
        } else {
            S3Operation::BadRequest
        }),
{
    if has_param(params, "uploads") {
        S3Operation::CreateMultipartUpload
    } else if has_param(params, "uploadId") {
        S3Operation::CompleteMultipartUpload
    } else {
        S3Operation::BadRequest
    }
}

/// `DELETE /{bucket}/{key}`: abort an upload with `uploadId`, else delete the object.
pub fn handle_object_delete(params: &Vec<(String, String)>) -> (op: S3Operation)
    ensures
        op == (if param(params@, "uploadId"@) is Some { S3Operation::AbortMultipartUpload } else { S3Operation::DeleteObject }),
{
    if has_param(params, "uploadId") { S3Operation::AbortMultipartUpload } else { S3Operation::DeleteObject }
}

} // verus!
