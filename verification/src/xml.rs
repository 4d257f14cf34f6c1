//! The XML documents of S3 responses.

use vstd::prelude::*;
use crate::model::{BucketInfo, ObjectInfo};
use crate::text::{decimal, push_decimal};
use crate::time::{rfc3339_or_empty, rfc3339_text};

verus! {

/// How one character is written in XML text: `&`, `<` and `>` as entities.
pub open spec fn escape_char(c: char) -> Seq<char> {
    if c == '&' {
        "&amp;"@
    } else if c == '<' {
        "&lt;"@
    } else if c == '>' {
        "&gt;"@
    } else {
        seq![c]
    }
}

/// Text with `&`, `<` and `>` written as entities.
pub open spec fn xml_escape(s: Seq<char>) -> Seq<char>
    decreases s.len(),
{
    if s.len() == 0 {
        Seq::empty()
    } else {
        xml_escape(s.drop_last()) + escape_char(s.last())
    }
}

/// `quick_xml::escape::partial_escape`: claimed to return the text with `&`, `<` and `>`
/// replaced by `&amp;`, `&lt;` and `&gt;` and every other character kept (the crate's
/// `_escape` copies the bytes between those three and writes the entity for each).
#[verifier::external_body]
fn partial_escape(s: &str) -> (r: String)
    ensures
        r@ == xml_escape(s@),
{
    quick_xml::escape::partial_escape(s).into_owned()
}

/// An element with the given content: `<name/>` when the content is empty,
/// else `<name>content</name>`.
pub open spec fn element(name: Seq<char>, content: Seq<char>) -> Seq<char> {
    if content.len() == 0 {
        "<"@ + name + "/>"@
    } else {
        "<"@ + name + ">"@ + content + "</"@ + name + ">"@
    }
}

/// An element holding escaped text.
pub open spec fn text_element(name: Seq<char>, text: Seq<char>) -> Seq<char> {
    element(name, xml_escape(text))
}

/// An element holding a number.
pub open spec fn number_element(name: Seq<char>, n: nat) -> Seq<char> {
    element(name, decimal(n))
}

/// An element holding `true` or `false`.
pub open spec fn bool_element(name: Seq<char>, b: bool) -> Seq<char> {
    element(name, if b { "true"@ } else { "false"@ })
}

/// The XML declaration and a line feed before the document's root element.
pub open spec fn xml_document(root: Seq<char>) -> Seq<char> {
    "<?xml version=\"1.0\" encoding=\"UTF-8\"?>\n"@ + root
}

/// The escaping of empty text is empty, and only then.
pub proof fn lemma_escape_empty(s: Seq<char>)
    ensures
        (xml_escape(s).len() == 0) <==> (s.len() == 0),
    decreases s.len(),
{
    if s.len() > 0 {
        lemma_escape_empty(s.drop_last());
        reveal_strlit("&amp;");
        reveal_strlit("&lt;");
        reveal_strlit("&gt;");
        assert(escape_char(s.last()).len() > 0);
    }
}

/// Appends an element with the given content.
pub fn push_element(out: &mut String, name: &str, content: &str)
    ensures
        final(out)@ == old(out)@ + element(name@, content@),
{
    if content.unicode_len() == 0 {
        out.append("<");
        out.append(name);
        out.append("/>");
    } else {
        out.append("<");
        out.append(name);
        out.append(">");
        out.append(content);
        out.append("</");
        out.append(name);
        out.append(">");
    }
}

/// Appends an element holding escaped text.
pub fn push_text_element(out: &mut String, name: &str, text: &str)
    ensures
        final(out)@ == old(out)@ + text_element(name@, text@),
{
    let escaped = partial_escape(text);
    push_element(out, name, escaped.as_str());
}

/// Appends an element holding a number.
pub fn push_number_element(out: &mut String, name: &str, n: u64)
    ensures
        final(out)@ == old(out)@ + number_element(name@, n as nat),
{
    let mut digits = String::new();
    push_decimal(&mut digits, n);
    assert(digits@ =~= decimal(n as nat));
    push_element(out, name, digits.as_str());
}

/// Appends an element holding `true` or `false`.
pub fn push_bool_element(out: &mut String, name: &str, b: bool)
    ensures
        final(out)@ == old(out)@ + bool_element(name@, b),
{
    if b {
        push_element(out, name, "true");
    } else {
        push_element(out, name, "false");
    }
}

/// The declaration followed by a root element.
pub fn document(root: &str) -> (s: String)
    ensures
        s@ == xml_document(root@),
{
    let mut s = String::from_str("<?xml version=\"1.0\" encoding=\"UTF-8\"?>\n");
    s.append(root);
    s
}

/// The body of an S3 error response.
pub open spec fn error_xml(code: Seq<char>, message: Seq<char>, request_id: Seq<char>) -> Seq<char> {
    xml_document(element("Error"@,
        text_element("Code"@, code) + text_element("Message"@, message)
            + text_element("RequestId"@, request_id) + text_element("HostId"@, "tinystore"@)))
}

/// The RFC 3339 rendering of a time, or the empty text where it has none.
pub open spec fn rfc3339_view(t: crate::time::Timestamp) -> Seq<char> {
    match rfc3339_text(t.secs, t.nanos) {
        Some(x) => x,
        None => Seq::empty(),
    }
}

/// A bucket in a bucket listing.
pub struct BucketXml {
    pub name: String,
    pub creation_date: String,
}

impl BucketXml {
    /// The listing entry of a bucket: its name and its creation time in RFC 3339.
    pub fn from(info: BucketInfo) -> (b: BucketXml)
        ensures
            b.name@ == info.name@,
            b.creation_date@ == rfc3339_view(info.creation_date),
    {
        BucketXml { name: info.name, creation_date: rfc3339_or_empty(info.creation_date) }
    }
}

/// The owner named in a bucket listing.
pub struct Owner {
    pub id: String,
    pub display_name: String,
}

/// The buckets of a bucket listing.
pub struct Buckets {
    pub bucket: Vec<BucketXml>,
}

/// The response to a bucket listing.
pub struct ListAllMyBucketsResult {
    pub owner: Owner,
    pub buckets: Buckets,
}

/// The `Bucket` elements of a bucket listing.
pub open spec fn buckets_xml(s: Seq<BucketXml>) -> Seq<char>
    decreases s.len(),
{
    if s.len() == 0 {
        Seq::empty()
    } else {
        buckets_xml(s.drop_last()) + element("Bucket"@,
            text_element("Name"@, s.last().name@) + text_element("CreationDate"@, s.last().creation_date@))
    }
}

/// The document of a bucket listing.
pub open spec fn list_all_my_buckets_xml(r: ListAllMyBucketsResult) -> Seq<char> {
    xml_document(element("ListAllMyBucketsResult"@,
        element("Owner"@, text_element("ID"@, r.owner.id@) + text_element("DisplayName"@, r.owner.display_name@))
            + element("Buckets"@, buckets_xml(r.buckets.bucket@))))
}

impl ListAllMyBucketsResult {
    /// The XML document of this response.
    pub fn to_xml(&self) -> (s: String)
        ensures
            s@ == list_all_my_buckets_xml(*self),
    {
        let mut owner = String::new();
        push_text_element(&mut owner, "ID", self.owner.id.as_str());
        push_text_element(&mut owner, "DisplayName", self.owner.display_name.as_str());
        let mut items = String::new();
        let mut i: usize = 0;
        let v = &self.buckets.bucket;
        while i < v.len()
            invariant
                i <= v@.len(),
                items@ == buckets_xml(v@.subrange(0, i as int)),
            decreases v.len() - i,
        {
            assert(v@.subrange(0, i + 1).drop_last() =~= v@.subrange(0, i as int));
            let mut inner = String::new();
            push_text_element(&mut inner, "Name", v[i].name.as_str());
            push_text_element(&mut inner, "CreationDate", v[i].creation_date.as_str());
            push_element(&mut items, "Bucket", inner.as_str());
            assert(inner@ =~= text_element("Name"@, v@[i as int].name@) + text_element("CreationDate"@, v@[i as int].creation_date@));
            i = i + 1;
        }
        assert(v@.subrange(0, v@.len() as int) =~= v@);
        let mut body = String::new();
        push_element(&mut body, "Owner", owner.as_str());
        push_element(&mut body, "Buckets", items.as_str());
        let mut root = String::new();
        push_element(&mut root, "ListAllMyBucketsResult", body.as_str());
        proof {
            assert(owner@ =~= text_element("ID"@, self.owner.id@) + text_element("DisplayName"@, self.owner.display_name@));
            assert(body@ =~= element("Owner"@, owner@) + element("Buckets"@, items@));
        }
        document(root.as_str())
    }
}

/// An object in an object listing.
pub struct ObjectXml {
    pub key: String,
    pub last_modified: String,
    pub etag: String,
    pub size: u64,
    pub storage_class: String,
}

impl ObjectXml {
    /// The listing entry of an object: its time in RFC 3339 and its ETag as stored (already
    /// in double quotes).
    pub fn from(info: ObjectInfo) -> (o: ObjectXml)
        ensures
            o.key@ == info.key@,
            o.last_modified@ == rfc3339_view(info.last_modified),
            o.etag@ == info.etag@,
            o.size == info.size,
            o.storage_class@ == info.storage_class@,
    {
        ObjectXml {
            key: info.key,
            last_modified: rfc3339_or_empty(info.last_modified),
            etag: info.etag,
            size: info.size,
            storage_class: info.storage_class,
        }
    }
}

/// The `Contents` elements of an object listing.
pub open spec fn contents_xml(s: Seq<ObjectXml>) -> Seq<char>
    decreases s.len(),
{
    if s.len() == 0 {
        Seq::empty()
    } else {
        contents_xml(s.drop_last()) + element("Contents"@,
            text_element("Key"@, s.last().key@) + text_element("LastModified"@, s.last().last_modified@)
                + text_element("ETag"@, s.last().etag@) + number_element("Size"@, s.last().size as nat)
                + text_element("StorageClass"@, s.last().storage_class@))
    }
}

/// The response to an object listing.
pub struct ListBucketResult {
    pub name: String,
    pub prefix: Option<String>,
    pub max_keys: usize,
    pub is_truncated: bool,
    pub contents: Vec<ObjectXml>,
    pub next_continuation_token: Option<String>,
}

/// The document of an object listing: an absent prefix is written as an empty element,
/// the key count is the number of `Contents` entries, an absent continuation token is not
/// written at all.
pub open spec fn list_bucket_xml(r: ListBucketResult) -> Seq<char> {
    xml_document(element("ListBucketResult"@,
        text_element("Name"@, r.name@)
            + text_element("Prefix"@, text_or_empty(r.prefix))
            + number_element("KeyCount"@, r.contents@.len())
            + number_element("MaxKeys"@, r.max_keys as nat)
            + bool_element("IsTruncated"@, r.is_truncated)
            + contents_xml(r.contents@)
            + token_xml(r.next_continuation_token)))
}

/// The text of an optional string, empty when absent.
pub open spec fn text_or_empty(s: Option<String>) -> Seq<char> {
    match s {
        Some(x) => x@,
        None => Seq::empty(),
    }
}

/// The continuation token element, when there is a token.
pub open spec fn token_xml(t: Option<String>) -> Seq<char> {
    match t {
        Some(x) => text_element("NextContinuationToken"@, x@),
        None => Seq::empty(),
    }
}

impl ListBucketResult {
    /// The XML document of this response.
    pub fn to_xml(&self) -> (s: String)
        ensures
            s@ == list_bucket_xml(*self),
    {
        let mut body = String::new();
        push_text_element(&mut body, "Name", self.name.as_str());
        match &self.prefix {
            Some(p) => push_text_element(&mut body, "Prefix", p.as_str()),
            None => push_element(&mut body, "Prefix", ""),
        }
        proof { reveal_strlit(""); }
        push_number_element(&mut body, "KeyCount", self.contents.len() as u64);
        push_number_element(&mut body, "MaxKeys", self.max_keys as u64);
        push_bool_element(&mut body, "IsTruncated", self.is_truncated);
        let ghost head = body@;
        let v = &self.contents;
        let mut i: usize = 0;
        while i < v.len()
            invariant
                i <= v@.len(),
                body@ == head + contents_xml(v@.subrange(0, i as int)),
            decreases v.len() - i,
        {
            assert(v@.subrange(0, i + 1).drop_last() =~= v@.subrange(0, i as int));
            let mut inner = String::new();
            push_text_element(&mut inner, "Key", v[i].key.as_str());
            push_text_element(&mut inner, "LastModified", v[i].last_modified.as_str());
            push_text_element(&mut inner, "ETag", v[i].etag.as_str());
            push_number_element(&mut inner, "Size", v[i].size);
            push_text_element(&mut inner, "StorageClass", v[i].storage_class.as_str());
            let ghost before = body@;
            push_element(&mut body, "Contents", inner.as_str());
            proof {
                let o = v@[i as int];
                assert(inner@ =~= text_element("Key"@, o.key@) + text_element("LastModified"@, o.last_modified@)
                    + text_element("ETag"@, o.etag@) + number_element("Size"@, o.size as nat)
                    + text_element("StorageClass"@, o.storage_class@));
                assert(body@ =~= head + contents_xml(v@.subrange(0, i + 1)));
            }
            i = i + 1;
        }
        assert(v@.subrange(0, v@.len() as int) =~= v@);
        match &self.next_continuation_token {
            Some(t) => push_text_element(&mut body, "NextContinuationToken", t.as_str()),
            None => {},
        }
        let mut root = String::new();
        push_element(&mut root, "ListBucketResult", body.as_str());
        proof {
            lemma_escape_empty(text_or_empty(self.prefix));
            assert(body@ =~= text_element("Name"@, self.name@)
                + text_element("Prefix"@, text_or_empty(self.prefix))
                + number_element("KeyCount"@, self.contents@.len())
                + number_element("MaxKeys"@, self.max_keys as nat)
                + bool_element("IsTruncated"@, self.is_truncated)
                + contents_xml(self.contents@)
                + token_xml(self.next_continuation_token));
        }
        document(root.as_str())
    }
}

/// The response to starting a multipart upload.
pub struct InitiateMultipartUploadResult {
    pub bucket: String,
    pub key: String,
    pub upload_id: String,
}

/// The document of the response to starting a multipart upload.
pub open spec fn initiate_xml(r: InitiateMultipartUploadResult) -> Seq<char> {
    xml_document(element("InitiateMultipartUploadResult"@,
        text_element("Bucket"@, r.bucket@) + text_element("Key"@, r.key@) + text_element("UploadId"@, r.upload_id@)))
}

impl InitiateMultipartUploadResult {
    /// The XML document of this response.
    pub fn to_xml(&self) -> (s: String)
        ensures
            s@ == initiate_xml(*self),
    {
        let mut body = String::new();
        push_text_element(&mut body, "Bucket", self.bucket.as_str());
        push_text_element(&mut body, "Key", self.key.as_str());
        push_text_element(&mut body, "UploadId", self.upload_id.as_str());
        let mut root = String::new();
        push_element(&mut root, "InitiateMultipartUploadResult", body.as_str());
        assert(body@ =~= text_element("Bucket"@, self.bucket@) + text_element("Key"@, self.key@)
            + text_element("UploadId"@, self.upload_id@));
        document(root.as_str())
    }
}

/// The response to completing a multipart upload.
pub struct CompleteMultipartUploadResult {
    pub location: String,
    pub bucket: String,
    pub key: String,
    pub etag: String,
}

/// The document of the response to completing a multipart upload.
pub open spec fn complete_xml(r: CompleteMultipartUploadResult) -> Seq<char> {
    xml_document(element("CompleteMultipartUploadResult"@,
        text_element("Location"@, r.location@) + text_element("Bucket"@, r.bucket@)
            + text_element("Key"@, r.key@) + text_element("ETag"@, r.etag@)))
}

impl CompleteMultipartUploadResult {
    /// The XML document of this response.
    pub fn to_xml(&self) -> (s: String)
        ensures
            s@ == complete_xml(*self),
    {
        let mut body = String::new();
        push_text_element(&mut body, "Location", self.location.as_str());
        push_text_element(&mut body, "Bucket", self.bucket.as_str());
        push_text_element(&mut body, "Key", self.key.as_str());
        push_text_element(&mut body, "ETag", self.etag.as_str());
        let mut root = String::new();
        push_element(&mut root, "CompleteMultipartUploadResult", body.as_str());
        assert(body@ =~= text_element("Location"@, self.location@) + text_element("Bucket"@, self.bucket@)
            + text_element("Key"@, self.key@) + text_element("ETag"@, self.etag@));
        document(root.as_str())
    }
}

/// A part in a part listing.
pub struct PartXml {
    pub part_number: u32,
    pub etag: String,
    pub size: u64,
}

/// The response to a part listing.
pub struct ListPartsResult {
    pub bucket: String,
    pub key: String,
    pub upload_id: String,
    pub parts: Vec<PartXml>,
}

/// The `Part` elements of a part listing.
pub open spec fn parts_xml(s: Seq<PartXml>) -> Seq<char>
    decreases s.len(),
{
    if s.len() == 0 {
        Seq::empty()
    } else {
        parts_xml(s.drop_last()) + element("Part"@,
            number_element("PartNumber"@, s.last().part_number as nat) + text_element("ETag"@, s.last().etag@)
                + number_element("Size"@, s.last().size as nat))
    }
}

/// The document of a part listing.
pub open spec fn list_parts_xml(r: ListPartsResult) -> Seq<char> {
    xml_document(element("ListPartsResult"@,
        text_element("Bucket"@, r.bucket@) + text_element("Key"@, r.key@) + text_element("UploadId"@, r.upload_id@)
            + parts_xml(r.parts@)))
}

impl ListPartsResult {
    /// The XML document of this response.
    pub fn to_xml(&self) -> (s: String)
        ensures
            s@ == list_parts_xml(*self),
    {
        let mut body = String::new();
        push_text_element(&mut body, "Bucket", self.bucket.as_str());
        push_text_element(&mut body, "Key", self.key.as_str());
        push_text_element(&mut body, "UploadId", self.upload_id.as_str());
        let ghost head = body@;
        let v = &self.parts;
        let mut i: usize = 0;
        while i < v.len()
            invariant
                i <= v@.len(),
                body@ == head + parts_xml(v@.subrange(0, i as int)),
            decreases v.len() - i,
        {
            assert(v@.subrange(0, i + 1).drop_last() =~= v@.subrange(0, i as int));
            let mut inner = String::new();
            push_number_element(&mut inner, "PartNumber", v[i].part_number as u64);
            push_text_element(&mut inner, "ETag", v[i].etag.as_str());
            push_number_element(&mut inner, "Size", v[i].size);
            push_element(&mut body, "Part", inner.as_str());
            proof {
                let p = v@[i as int];
                assert(inner@ =~= number_element("PartNumber"@, p.part_number as nat) + text_element("ETag"@, p.etag@)
                    + number_element("Size"@, p.size as nat));
                assert(body@ =~= head + parts_xml(v@.subrange(0, i + 1)));
            }
            i = i + 1;
        }
        assert(v@.subrange(0, v@.len() as int) =~= v@);
        let mut root = String::new();
        push_element(&mut root, "ListPartsResult", body.as_str());
        assert(body@ =~= text_element("Bucket"@, self.bucket@) + text_element("Key"@, self.key@)
            + text_element("UploadId"@, self.upload_id@) + parts_xml(self.parts@));
        document(root.as_str())
    }
}

/// An upload in a listing of multipart uploads.
pub struct MultipartUploadXml {
    pub key: String,
    pub upload_id: String,
}

/// The response to a listing of multipart uploads.
pub struct ListMultipartUploadsResult {
    pub bucket: String,
    pub uploads: Vec<MultipartUploadXml>,
}

/// The `Upload` elements of a listing of multipart uploads.
pub open spec fn uploads_xml(s: Seq<MultipartUploadXml>) -> Seq<char>
    decreases s.len(),
{
    if s.len() == 0 {
        Seq::empty()
    } else {
        uploads_xml(s.drop_last()) + element("Upload"@,
            text_element("Key"@, s.last().key@) + text_element("UploadId"@, s.last().upload_id@))
    }
}

/// The document of a listing of multipart uploads.
pub open spec fn list_uploads_xml(r: ListMultipartUploadsResult) -> Seq<char> {
    xml_document(element("ListMultipartUploadsResult"@, text_element("Bucket"@, r.bucket@) + uploads_xml(r.uploads@)))
}

impl ListMultipartUploadsResult {
    /// The XML document of this response.
    pub fn to_xml(&self) -> (s: String)
        ensures
            s@ == list_uploads_xml(*self),
    {
        let mut body = String::new();
        push_text_element(&mut body, "Bucket", self.bucket.as_str());
        let ghost head = body@;
        let v = &self.uploads;
        let mut i: usize = 0;
        while i < v.len()
            invariant
                i <= v@.len(),
                body@ == head + uploads_xml(v@.subrange(0, i as int)),
            decreases v.len() - i,
        {
            assert(v@.subrange(0, i + 1).drop_last() =~= v@.subrange(0, i as int));
            let mut inner = String::new();
            push_text_element(&mut inner, "Key", v[i].key.as_str());
            push_text_element(&mut inner, "UploadId", v[i].upload_id.as_str());
            push_element(&mut body, "Upload", inner.as_str());
            proof {
                let u = v@[i as int];
                assert(inner@ =~= text_element("Key"@, u.key@) + text_element("UploadId"@, u.upload_id@));
                assert(body@ =~= head + uploads_xml(v@.subrange(0, i + 1)));
            }
            i = i + 1;
        }
        assert(v@.subrange(0, v@.len() as int) =~= v@);
        let mut root = String::new();
        push_element(&mut root, "ListMultipartUploadsResult", body.as_str());
        document(root.as_str())
    }
}

/// A deleted object in the response to a bulk delete.
pub struct DeletedObject {
    pub key: String,
}

/// A failed deletion in the response to a bulk delete.
pub struct DeleteError {
    pub key: String,
    pub code: String,
    pub message: String,
}

/// The response to a bulk delete.
pub struct DeleteResult {
    pub deleted: Vec<DeletedObject>,
    pub errors: Vec<DeleteError>,
}

/// The `Deleted` elements of a bulk delete response.
pub open spec fn deleted_xml(s: Seq<DeletedObject>) -> Seq<char>
    decreases s.len(),
{
    if s.len() == 0 {
        Seq::empty()
    } else {
        deleted_xml(s.drop_last()) + element("Deleted"@, text_element("Key"@, s.last().key@))
    }
}

/// The `Error` elements of a bulk delete response.
pub open spec fn delete_errors_xml(s: Seq<DeleteError>) -> Seq<char>
    decreases s.len(),
{
    if s.len() == 0 {
        Seq::empty()
    } else {
        delete_errors_xml(s.drop_last()) + element("Error"@,
            text_element("Key"@, s.last().key@) + text_element("Code"@, s.last().code@)
                + text_element("Message"@, s.last().message@))
    }
}

/// The document of a bulk delete response.
pub open spec fn delete_result_xml(r: DeleteResult) -> Seq<char> {
    xml_document(element("DeleteResult"@, deleted_xml(r.deleted@) + delete_errors_xml(r.errors@)))
}

impl DeleteResult {
    /// The XML document of this response.
    pub fn to_xml(&self) -> (s: String)
        ensures
            s@ == delete_result_xml(*self),
    {
        let mut body = String::new();
        let d = &self.deleted;
        let mut i: usize = 0;
        while i < d.len()
            invariant
                i <= d@.len(),
                body@ == deleted_xml(d@.subrange(0, i as int)),
            decreases d.len() - i,
        {
            assert(d@.subrange(0, i + 1).drop_last() =~= d@.subrange(0, i as int));
            let mut inner = String::new();
            push_text_element(&mut inner, "Key", d[i].key.as_str());
            push_element(&mut body, "Deleted", inner.as_str());
            assert(body@ =~= deleted_xml(d@.subrange(0, i + 1)));
            i = i + 1;
        }
        assert(d@.subrange(0, d@.len() as int) =~= d@);
        let ghost head = body@;
        let e = &self.errors;
        let mut j: usize = 0;
        while j < e.len()
            invariant
                j <= e@.len(),
                body@ == head + delete_errors_xml(e@.subrange(0, j as int)),
            decreases e.len() - j,
        {
            assert(e@.subrange(0, j + 1).drop_last() =~= e@.subrange(0, j as int));
            let mut inner = String::new();
            push_text_element(&mut inner, "Key", e[j].key.as_str());
            push_text_element(&mut inner, "Code", e[j].code.as_str());
            push_text_element(&mut inner, "Message", e[j].message.as_str());
            push_element(&mut body, "Error", inner.as_str());
            proof {
                let x = e@[j as int];
                assert(inner@ =~= text_element("Key"@, x.key@) + text_element("Code"@, x.code@) + text_element("Message"@, x.message@));
                assert(body@ =~= head + delete_errors_xml(e@.subrange(0, j + 1)));
            }
            j = j + 1;
        }
        assert(e@.subrange(0, e@.len() as int) =~= e@);
        let mut root = String::new();
        push_element(&mut root, "DeleteResult", body.as_str());
        document(root.as_str())
    }
}

/// The response to a bucket location request.
pub struct LocationConstraint {
    pub location: String,
}

/// The document of a bucket location response.
pub open spec fn location_xml(r: LocationConstraint) -> Seq<char> {
    xml_document(text_element("LocationConstraint"@, r.location@))
}

impl LocationConstraint {
    /// The XML document of this response.
    pub fn to_xml(&self) -> (s: String)
        ensures
            s@ == location_xml(*self),
    {
        let mut root = String::new();
        push_text_element(&mut root, "LocationConstraint", self.location.as_str());
        document(root.as_str())
    }
}


/// The body of an S3 error response.
pub struct S3ErrorResponse {
    pub code: String,
    pub message: String,
    pub request_id: String,
    pub host_id: String,
}

/// The document of an S3 error response.
pub open spec fn error_response_xml(r: S3ErrorResponse) -> Seq<char> {
    xml_document(element("Error"@,
        text_element("Code"@, r.code@) + text_element("Message"@, r.message@)
            + text_element("RequestId"@, r.request_id@) + text_element("HostId"@, r.host_id@)))
}

impl S3ErrorResponse {
    /// The XML document of this response.
    pub fn to_xml(&self) -> (s: String)
        ensures
            s@ == error_response_xml(*self),
    {
        let mut body = String::new();
        push_text_element(&mut body, "Code", self.code.as_str());
        push_text_element(&mut body, "Message", self.message.as_str());
        push_text_element(&mut body, "RequestId", self.request_id.as_str());
        push_text_element(&mut body, "HostId", self.host_id.as_str());
        let mut root = String::new();
        push_element(&mut root, "Error", body.as_str());
        assert(body@ =~= text_element("Code"@, self.code@) + text_element("Message"@, self.message@)
            + text_element("RequestId"@, self.request_id@) + text_element("HostId"@, self.host_id@));
        document(root.as_str())
    }
}

/// A key named in a bulk delete request.
pub struct ObjectIdentifier {
    pub key: String,
}

/// A bulk delete request.
pub struct DeleteObjectsRequest {
    pub objects: Vec<ObjectIdentifier>,
}

impl DeleteObjectsRequest {
    /// The keys to delete, in the order named.
    pub fn keys(self) -> (v: Vec<String>)
        ensures
            v@.len() == self.objects@.len(),
            forall|i: int| 0 <= i < v@.len() ==> (#[trigger] v@[i])@ == self.objects@[i].key@,
    {
        let mut v: Vec<String> = Vec::new();
        let mut i: usize = 0;
        while i < self.objects.len()
            invariant
                i <= self.objects@.len(),
                v@.len() == i,
                forall|j: int| 0 <= j < i ==> (#[trigger] v@[j])@ == self.objects@[j].key@,
            decreases self.objects.len() - i,
        {
            v.push(self.objects[i].key.clone());
            i = i + 1;
        }
        v
    }
}

/// A part named in a request to complete a multipart upload.
pub struct CompletedPartXml {
    pub part_number: u32,
    pub etag: String,
}

/// A request to complete a multipart upload.
pub struct CompleteMultipartUploadRequest {
    pub parts: Vec<CompletedPartXml>,
}

impl CompleteMultipartUploadRequest {
    /// The parts named, in order.
    pub fn completed_parts(self) -> (v: Vec<crate::backend::CompletedPart>)
        ensures
            v@.len() == self.parts@.len(),
            forall|i: int| 0 <= i < v@.len() ==> (#[trigger] v@[i]).part_number == self.parts@[i].part_number
                && v@[i].etag@ == self.parts@[i].etag@,
    {
        let mut v: Vec<crate::backend::CompletedPart> = Vec::new();
        let mut i: usize = 0;
        while i < self.parts.len()
            invariant
                i <= self.parts@.len(),
                v@.len() == i,
                forall|j: int| 0 <= j < i ==> (#[trigger] v@[j]).part_number == self.parts@[j].part_number
                    && v@[j].etag@ == self.parts@[j].etag@,
            decreases self.parts.len() - i,
        {
            v.push(crate::backend::CompletedPart {
                part_number: self.parts[i].part_number,
                etag: self.parts[i].etag.clone(),
            });
            i = i + 1;
        }
        v
    }
}


/// The Bucket elements, one per bucket, in order: a single bucket is written as its own element, and the
/// elements of `s` followed by `t` are those of `s` followed by those of `t`.
pub proof fn lemma_buckets_xml_in_order(s: Seq<BucketXml>, t: Seq<BucketXml>, x: BucketXml)
    ensures
        buckets_xml(seq![x]) == element("Bucket"@, text_element("Name"@, x.name@) + text_element("CreationDate"@, x.creation_date@)),
        buckets_xml(s + t) == buckets_xml(s) + buckets_xml(t),
    decreases t.len(),
{
    assert(seq![x].drop_last() =~= Seq::<BucketXml>::empty());
    assert(seq![x].last() == x);
    assert(buckets_xml(Seq::<BucketXml>::empty()) == Seq::<char>::empty());
    assert(buckets_xml(seq![x].drop_last()) == Seq::<char>::empty());
    assert(buckets_xml(seq![x]) =~= element("Bucket"@, text_element("Name"@, x.name@) + text_element("CreationDate"@, x.creation_date@)));
    if t.len() == 0 {
        assert(s + t =~= s);
    } else {
        lemma_buckets_xml_in_order(s, t.drop_last(), x);
        assert((s + t).drop_last() =~= s + t.drop_last());
        assert((s + t).last() == t.last());
    }
}

/// The Contents elements, one per object, in order: a single object is written as its own element, and the
/// elements of `s` followed by `t` are those of `s` followed by those of `t`.
pub proof fn lemma_contents_xml_in_order(s: Seq<ObjectXml>, t: Seq<ObjectXml>, x: ObjectXml)
    ensures
        contents_xml(seq![x]) == element("Contents"@, text_element("Key"@, x.key@) + text_element("LastModified"@, x.last_modified@) + text_element("ETag"@, x.etag@) + number_element("Size"@, x.size as nat) + text_element("StorageClass"@, x.storage_class@)),
        contents_xml(s + t) == contents_xml(s) + contents_xml(t),
    decreases t.len(),
{
    assert(seq![x].drop_last() =~= Seq::<ObjectXml>::empty());
    assert(seq![x].last() == x);
    assert(contents_xml(Seq::<ObjectXml>::empty()) == Seq::<char>::empty());
    assert(contents_xml(seq![x].drop_last()) == Seq::<char>::empty());
    assert(contents_xml(seq![x]) =~= element("Contents"@, text_element("Key"@, x.key@) + text_element("LastModified"@, x.last_modified@) + text_element("ETag"@, x.etag@) + number_element("Size"@, x.size as nat) + text_element("StorageClass"@, x.storage_class@)));
    if t.len() == 0 {
        assert(s + t =~= s);
    } else {
        lemma_contents_xml_in_order(s, t.drop_last(), x);
        assert((s + t).drop_last() =~= s + t.drop_last());
        assert((s + t).last() == t.last());
    }
}

/// The Part elements, one per part, in order: a single part is written as its own element, and the
/// elements of `s` followed by `t` are those of `s` followed by those of `t`.
pub proof fn lemma_parts_xml_in_order(s: Seq<PartXml>, t: Seq<PartXml>, x: PartXml)
    ensures
        parts_xml(seq![x]) == element("Part"@, number_element("PartNumber"@, x.part_number as nat) + text_element("ETag"@, x.etag@) + number_element("Size"@, x.size as nat)),
        parts_xml(s + t) == parts_xml(s) + parts_xml(t),
    decreases t.len(),
{
    assert(seq![x].drop_last() =~= Seq::<PartXml>::empty());
    assert(seq![x].last() == x);
    assert(parts_xml(Seq::<PartXml>::empty()) == Seq::<char>::empty());
    assert(parts_xml(seq![x].drop_last()) == Seq::<char>::empty());
    assert(parts_xml(seq![x]) =~= element("Part"@, number_element("PartNumber"@, x.part_number as nat) + text_element("ETag"@, x.etag@) + number_element("Size"@, x.size as nat)));
    if t.len() == 0 {
        assert(s + t =~= s);
    } else {
        lemma_parts_xml_in_order(s, t.drop_last(), x);
        assert((s + t).drop_last() =~= s + t.drop_last());
        assert((s + t).last() == t.last());
    }
}

/// The Upload elements, one per upload, in order: a single upload is written as its own element, and the
/// elements of `s` followed by `t` are those of `s` followed by those of `t`.
pub proof fn lemma_uploads_xml_in_order(s: Seq<MultipartUploadXml>, t: Seq<MultipartUploadXml>, x: MultipartUploadXml)
    ensures
        uploads_xml(seq![x]) == element("Upload"@, text_element("Key"@, x.key@) + text_element("UploadId"@, x.upload_id@)),
        uploads_xml(s + t) == uploads_xml(s) + uploads_xml(t),
    decreases t.len(),
{
    assert(seq![x].drop_last() =~= Seq::<MultipartUploadXml>::empty());
    assert(seq![x].last() == x);
    assert(uploads_xml(Seq::<MultipartUploadXml>::empty()) == Seq::<char>::empty());
    assert(uploads_xml(seq![x].drop_last()) == Seq::<char>::empty());
    assert(uploads_xml(seq![x]) =~= element("Upload"@, text_element("Key"@, x.key@) + text_element("UploadId"@, x.upload_id@)));
    if t.len() == 0 {
        assert(s + t =~= s);
    } else {
        lemma_uploads_xml_in_order(s, t.drop_last(), x);
        assert((s + t).drop_last() =~= s + t.drop_last());
        assert((s + t).last() == t.last());
    }
}

/// The Deleted elements, one per deleted object, in order: a single deleted object is written as its own element, and the
/// elements of `s` followed by `t` are those of `s` followed by those of `t`.
pub proof fn lemma_deleted_xml_in_order(s: Seq<DeletedObject>, t: Seq<DeletedObject>, x: DeletedObject)
    ensures
        deleted_xml(seq![x]) == element("Deleted"@, text_element("Key"@, x.key@)),
        deleted_xml(s + t) == deleted_xml(s) + deleted_xml(t),
    decreases t.len(),
{
    assert(seq![x].drop_last() =~= Seq::<DeletedObject>::empty());
    assert(seq![x].last() == x);
    assert(deleted_xml(Seq::<DeletedObject>::empty()) == Seq::<char>::empty());
    assert(deleted_xml(seq![x].drop_last()) == Seq::<char>::empty());
    assert(deleted_xml(seq![x]) =~= element("Deleted"@, text_element("Key"@, x.key@)));
    if t.len() == 0 {
        assert(s + t =~= s);
    } else {
        lemma_deleted_xml_in_order(s, t.drop_last(), x);
        assert((s + t).drop_last() =~= s + t.drop_last());
        assert((s + t).last() == t.last());
    }
}

/// The Error elements, one per failed deletion, in order: a single failed deletion is written as its own element, and the
/// elements of `s` followed by `t` are those of `s` followed by those of `t`.
pub proof fn lemma_delete_errors_xml_in_order(s: Seq<DeleteError>, t: Seq<DeleteError>, x: DeleteError)
    ensures
        delete_errors_xml(seq![x]) == element("Error"@, text_element("Key"@, x.key@) + text_element("Code"@, x.code@) + text_element("Message"@, x.message@)),
        delete_errors_xml(s + t) == delete_errors_xml(s) + delete_errors_xml(t),
    decreases t.len(),
{
    assert(seq![x].drop_last() =~= Seq::<DeleteError>::empty());
    assert(seq![x].last() == x);
    assert(delete_errors_xml(Seq::<DeleteError>::empty()) == Seq::<char>::empty());
    assert(delete_errors_xml(seq![x].drop_last()) == Seq::<char>::empty());
    assert(delete_errors_xml(seq![x]) =~= element("Error"@, text_element("Key"@, x.key@) + text_element("Code"@, x.code@) + text_element("Message"@, x.message@)));
    if t.len() == 0 {
        assert(s + t =~= s);
    } else {
        lemma_delete_errors_xml_in_order(s, t.drop_last(), x);
        assert((s + t).drop_last() =~= s + t.drop_last());
        assert((s + t).last() == t.last());
    }
}
} // verus!
