//! The XML documents of S3 responses.

use tinystore::backend::CompletedPart;
use tinystore::model::{BucketInfo, ObjectInfo};
use tinystore::time::Timestamp;
use tinystore::xml::{
    BucketXml, Buckets, CompleteMultipartUploadRequest, CompleteMultipartUploadResult, CompletedPartXml, DeleteError,
    DeleteObjectsRequest, DeleteResult, DeletedObject, InitiateMultipartUploadResult, ListAllMyBucketsResult,
    ListMultipartUploadsResult, ListPartsResult, LocationConstraint, MultipartUploadXml, ObjectIdentifier, ObjectXml,
    Owner, PartXml, S3ErrorResponse,
};

const DECL: &str = "<?xml version=\"1.0\" encoding=\"UTF-8\"?>\n";

#[test]
fn bucket_listing_document() {
    let b = BucketXml::from(BucketInfo::created_at("one".into(), Timestamp { secs: 86400, nanos: 0 }));
    assert_eq!(b.creation_date, "1970-01-02T00:00:00.000Z");
    let r = ListAllMyBucketsResult {
        owner: Owner { id: "id".into(), display_name: "".into() },
        buckets: Buckets { bucket: vec![b] },
    };
    assert_eq!(
        r.to_xml(),
        format!("{}<ListAllMyBucketsResult><Owner><ID>id</ID><DisplayName/></Owner><Buckets><Bucket><Name>one</Name><CreationDate>1970-01-02T00:00:00.000Z</CreationDate></Bucket></Buckets></ListAllMyBucketsResult>", DECL)
    );
    let empty = ListAllMyBucketsResult {
        owner: Owner { id: "i".into(), display_name: "d".into() },
        buckets: Buckets { bucket: vec![] },
    };
    assert_eq!(
        empty.to_xml(),
        format!("{}<ListAllMyBucketsResult><Owner><ID>i</ID><DisplayName>d</DisplayName></Owner><Buckets/></ListAllMyBucketsResult>", DECL)
    );
}

#[test]
fn object_entry_keeps_etag() {
    let o = ObjectXml::from(ObjectInfo {
        key: "k".into(),
        last_modified: Timestamp { secs: 0, nanos: 0 },
        etag: "\"abc\"".into(),
        size: 1,
        storage_class: "STANDARD".into(),
    });
    assert_eq!(o.etag, "\"abc\"");
}

#[test]
fn multipart_documents() {
    let i = InitiateMultipartUploadResult { bucket: "b".into(), key: "k".into(), upload_id: "u".into() };
    assert_eq!(
        i.to_xml(),
        format!("{}<InitiateMultipartUploadResult><Bucket>b</Bucket><Key>k</Key><UploadId>u</UploadId></InitiateMultipartUploadResult>", DECL)
    );
    let c = CompleteMultipartUploadResult { location: "/b/k".into(), bucket: "b".into(), key: "k".into(), etag: "\"e\"".into() };
    assert_eq!(
        c.to_xml(),
        format!("{}<CompleteMultipartUploadResult><Location>/b/k</Location><Bucket>b</Bucket><Key>k</Key><ETag>\"e\"</ETag></CompleteMultipartUploadResult>", DECL)
    );
    let l = ListPartsResult {
        bucket: "b".into(),
        key: "k".into(),
        upload_id: "u".into(),
        parts: vec![PartXml { part_number: 1, etag: "x".into(), size: 10 }, PartXml { part_number: 2, etag: "y".into(), size: 0 }],
    };
    assert_eq!(
        l.to_xml(),
        format!("{}<ListPartsResult><Bucket>b</Bucket><Key>k</Key><UploadId>u</UploadId><Part><PartNumber>1</PartNumber><ETag>x</ETag><Size>10</Size></Part><Part><PartNumber>2</PartNumber><ETag>y</ETag><Size>0</Size></Part></ListPartsResult>", DECL)
    );
    let u = ListMultipartUploadsResult { bucket: "b".into(), uploads: vec![MultipartUploadXml { key: "k".into(), upload_id: "u".into() }] };
    assert_eq!(
        u.to_xml(),
        format!("{}<ListMultipartUploadsResult><Bucket>b</Bucket><Upload><Key>k</Key><UploadId>u</UploadId></Upload></ListMultipartUploadsResult>", DECL)
    );
    let none = ListMultipartUploadsResult { bucket: "b".into(), uploads: vec![] };
    assert_eq!(none.to_xml(), format!("{}<ListMultipartUploadsResult><Bucket>b</Bucket></ListMultipartUploadsResult>", DECL));
}

#[test]
fn delete_and_location_documents() {
    let d = DeleteResult {
        deleted: vec![DeletedObject { key: "a".into() }],
        errors: vec![DeleteError { key: "b".into(), code: "NoSuchKey".into(), message: "gone".into() }],
    };
    assert_eq!(
        d.to_xml(),
        format!("{}<DeleteResult><Deleted><Key>a</Key></Deleted><Error><Key>b</Key><Code>NoSuchKey</Code><Message>gone</Message></Error></DeleteResult>", DECL)
    );
    let empty = DeleteResult { deleted: vec![], errors: vec![] };
    assert_eq!(empty.to_xml(), format!("{}<DeleteResult/>", DECL));
    let l = LocationConstraint { location: "us-east-1".into() };
    assert_eq!(l.to_xml(), format!("{}<LocationConstraint>us-east-1</LocationConstraint>", DECL));
    let e = S3ErrorResponse { code: "C".into(), message: "x > y".into(), request_id: "r".into(), host_id: "h".into() };
    assert_eq!(
        e.to_xml(),
        format!("{}<Error><Code>C</Code><Message>x &gt; y</Message><RequestId>r</RequestId><HostId>h</HostId></Error>", DECL)
    );
}

#[test]
fn request_documents_convert() {
    let req = DeleteObjectsRequest { objects: vec![ObjectIdentifier { key: "a".into() }, ObjectIdentifier { key: "b".into() }] };
    assert_eq!(req.keys(), vec!["a".to_string(), "b".to_string()]);
    let req = CompleteMultipartUploadRequest {
        parts: vec![CompletedPartXml { part_number: 2, etag: "e2".into() }, CompletedPartXml { part_number: 1, etag: "e1".into() }],
    };
    let parts: Vec<CompletedPart> = req.completed_parts();
    assert_eq!(parts.len(), 2);
    assert_eq!((parts[0].part_number, parts[0].etag.as_str()), (2, "e2"));
    assert_eq!((parts[1].part_number, parts[1].etag.as_str()), (1, "e1"));
}
