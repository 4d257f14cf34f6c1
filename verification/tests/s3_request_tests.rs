//! The S3 request layer: error bodies, ranges, copy sources, metadata headers, listings and routing.

use tinystore::backend::{ListObjectsResult, Range};
use tinystore::error::StorageError;
use tinystore::model::{ObjectInfo, ObjectMetadata};
use tinystore::s3::{
    handle_bucket_get, handle_bucket_post, handle_object_delete, handle_object_get, handle_object_post,
    handle_object_put, list_bucket_result, list_params_from_query, object_headers, parse_copy_source, parse_range,
    request_metadata, upload_id_param, upload_location, upload_part_params, S3Error, S3Operation,
};
use tinystore::time::Timestamp;

fn q(pairs: &[(&str, &str)]) -> Vec<(String, String)> {
    pairs.iter().map(|(k, v)| (k.to_string(), v.to_string())).collect()
}

#[test]
fn error_body_is_escaped_xml() {
    let e = S3Error {
        storage_error: StorageError::ObjectNotFound { bucket: "b".into(), key: "a<b>&c".into() },
        request_id: "rid".into(),
    };
    assert_eq!(
        e.to_xml(),
        "<?xml version=\"1.0\" encoding=\"UTF-8\"?>\n<Error><Code>NoSuchKey</Code><Message>Object not found: b/a&lt;b&gt;&amp;c</Message><RequestId>rid</RequestId><HostId>tinystore</HostId></Error>"
    );
    assert_eq!(e.status_code(), 404);
    let fresh = S3Error::new(StorageError::EntityTooLarge);
    assert_eq!(fresh.request_id.len(), 36);
    for (i, c) in fresh.request_id.chars().enumerate() {
        if [8, 13, 18, 23].contains(&i) {
            assert_eq!(c, '-');
        } else {
            assert!(c.is_ascii_digit() || ('a'..='f').contains(&c));
        }
    }
    assert_eq!(fresh.request_id.as_bytes()[14], b'4');
    assert!(b"89ab".contains(&fresh.request_id.as_bytes()[19]));
    assert_ne!(fresh.request_id, S3Error::from(StorageError::EntityTooLarge).request_id);
    let empty_id = S3Error { storage_error: StorageError::EntityTooLarge, request_id: String::new() };
    assert_eq!(
        empty_id.to_xml(),
        "<?xml version=\"1.0\" encoding=\"UTF-8\"?>\n<Error><Code>EntityTooLarge</Code><Message>Entity too large</Message><RequestId/><HostId>tinystore</HostId></Error>"
    );
}

#[test]
fn range_headers() {
    assert_eq!(parse_range("bytes=0-9"), Some(Range { start: 0, end: Some(10) }));
    assert_eq!(parse_range("bytes=5-5"), Some(Range { start: 5, end: Some(6) }));
    assert_eq!(parse_range("bytes=0-18446744073709551615"), Some(Range { start: 0, end: None }));
    assert_eq!(parse_range("bytes=10-"), Some(Range { start: 10, end: None }));
    assert_eq!(parse_range("bytes=5-x"), Some(Range { start: 5, end: None }));
    assert_eq!(parse_range("bytes=+5-"), Some(Range { start: 5, end: None }));
    assert_eq!(parse_range("bytes=-5"), None);
    assert_eq!(parse_range("bytes=1-2-3"), None);
    assert_eq!(parse_range("items=1-2"), None);
    assert_eq!(parse_range("bytes=18446744073709551616-"), None);
}

#[test]
fn copy_sources() {
    let ok = parse_copy_source(&Some("/src/dir/key.txt".into())).unwrap();
    assert_eq!(ok, ("src".to_string(), "dir/key.txt".to_string()));
    let ok = parse_copy_source(&Some("///b/k".into())).unwrap();
    assert_eq!(ok, ("b".to_string(), "k".to_string()));
    match parse_copy_source(&Some("/nokey".into())) {
        Err(StorageError::InvalidObjectKey(m)) => assert_eq!(m, "Invalid copy source format"),
        _ => panic!("expected a format error"),
    }
    match parse_copy_source(&None) {
        Err(StorageError::InvalidObjectKey(m)) => assert_eq!(m, "Invalid copy source"),
        _ => panic!("expected an encoding error"),
    }
}

#[test]
fn upload_request_metadata() {
    let headers = vec![
        ("content-type".to_string(), Some("text/plain".to_string())),
        ("x-amz-meta-color".to_string(), Some("red".to_string())),
        ("x-amz-meta-size".to_string(), None),
        ("x-amz-meta-color".to_string(), Some("blue".to_string())),
        ("x-other".to_string(), Some("z".to_string())),
    ];
    let m = request_metadata(&headers, b"hello");
    assert_eq!(m.content_length, 5);
    assert_eq!(m.etag, "5d41402abc4b2a76b9719d911017c592");
    assert_eq!(m.content_type.as_deref(), Some("text/plain"));
    assert_eq!(m.metadata, vec![("color".to_string(), "blue".to_string())]);
    let m = request_metadata(&vec![("content-type".to_string(), None)], b"");
    assert!(m.content_type.is_none());
}

#[test]
fn object_response_headers() {
    let mut m = ObjectMetadata::new(42, "\"abc\"".into());
    m.last_modified = Timestamp { secs: 1369353600, nanos: 0 };
    m.content_type = Some("image/png".into());
    m.metadata = vec![("k".to_string(), "v".to_string())];
    let h = object_headers(&m);
    assert_eq!(
        h,
        vec![
            ("content-length".to_string(), "42".to_string()),
            ("etag".to_string(), "\"abc\"".to_string()),
            ("last-modified".to_string(), "Fri, 24 May 2013 00:00:00 +0000".to_string()),
            ("content-type".to_string(), "image/png".to_string()),
            ("x-amz-meta-k".to_string(), "v".to_string()),
        ]
    );
}

#[test]
fn listing_requests_and_results() {
    let p = list_params_from_query(&q(&[("prefix", "a/"), ("delimiter", "/"), ("max-keys", "7"), ("continuation-token", "t")]));
    assert_eq!(p.prefix.as_deref(), Some("a/"));
    assert_eq!(p.delimiter.as_deref(), Some("/"));
    assert_eq!(p.max_keys, Some(7));
    assert_eq!(p.continuation_token.as_deref(), Some("t"));
    let p = list_params_from_query(&q(&[("max-keys", "many"), ("prefix", "x"), ("prefix", "y")]));
    assert_eq!(p.max_keys, None);
    assert_eq!(p.prefix.as_deref(), Some("y"));

    let listing = ListObjectsResult {
        objects: vec![ObjectInfo {
            key: "k&1".into(),
            last_modified: Timestamp { secs: 0, nanos: 0 },
            etag: "\"e\"".into(),
            size: 3,
            storage_class: "STANDARD".into(),
        }],
        common_prefixes: vec![],
        is_truncated: false,
        next_continuation_token: None,
    };
    let r = list_bucket_result("b".into(), None, None, listing);
    assert_eq!(r.max_keys, 1000);
    assert_eq!(r.contents[0].etag, "\"e\"");
    assert_eq!(r.contents[0].last_modified, "1970-01-01T00:00:00.000Z");
    assert_eq!(
        r.to_xml(),
        "<?xml version=\"1.0\" encoding=\"UTF-8\"?>\n<ListBucketResult><Name>b</Name><Prefix/><KeyCount>1</KeyCount><MaxKeys>1000</MaxKeys><IsTruncated>false</IsTruncated><Contents><Key>k&amp;1</Key><LastModified>1970-01-01T00:00:00.000Z</LastModified><ETag>\"e\"</ETag><Size>3</Size><StorageClass>STANDARD</StorageClass></Contents></ListBucketResult>"
    );
}

#[test]
fn multipart_request_parameters() {
    assert_eq!(upload_part_params(&q(&[("partNumber", "3"), ("uploadId", "u")])).unwrap(), (3, "u".to_string()));
    match upload_part_params(&q(&[("partNumber", "x"), ("uploadId", "u")])) {
        Err(StorageError::InvalidObjectKey(m)) => assert_eq!(m, "Missing partNumber"),
        _ => panic!("expected a part number error"),
    }
    match upload_part_params(&q(&[("partNumber", "4294967296"), ("uploadId", "u")])) {
        Err(StorageError::InvalidObjectKey(m)) => assert_eq!(m, "Missing partNumber"),
        _ => panic!("expected a part number error"),
    }
    match upload_part_params(&q(&[("partNumber", "1")])) {
        Err(StorageError::InvalidObjectKey(m)) => assert_eq!(m, "Missing uploadId"),
        _ => panic!("expected an upload id error"),
    }
    assert_eq!(upload_id_param(&q(&[("uploadId", "z")])).unwrap(), "z");
    assert!(upload_id_param(&q(&[])).is_err());
    assert_eq!(upload_location("b", "k/x"), "/b/k/x");
}

#[test]
fn routing_decisions() {
    assert_eq!(handle_bucket_get(&q(&[("location", "")])), S3Operation::GetBucketLocation);
    assert_eq!(handle_bucket_get(&q(&[("uploads", "")])), S3Operation::ListMultipartUploads);
    assert_eq!(handle_bucket_get(&q(&[("prefix", "a")])), S3Operation::ListObjects);
    assert_eq!(handle_bucket_post(&q(&[("delete", "")])), S3Operation::DeleteObjects);
    assert_eq!(handle_bucket_post(&q(&[])), S3Operation::BadRequest);
    assert_eq!(handle_object_get(&q(&[("uploadId", "u")])), S3Operation::ListParts);
    assert_eq!(handle_object_get(&q(&[])), S3Operation::GetObject);
    assert_eq!(handle_object_put(&q(&[("partNumber", "1"), ("uploadId", "u")]), true), S3Operation::UploadPart);
    assert_eq!(handle_object_put(&q(&[("partNumber", "1")]), true), S3Operation::CopyObject);
    assert_eq!(handle_object_put(&q(&[]), false), S3Operation::PutObject);
    assert_eq!(handle_object_post(&q(&[("uploads", "")])), S3Operation::CreateMultipartUpload);
    assert_eq!(handle_object_post(&q(&[("uploadId", "u")])), S3Operation::CompleteMultipartUpload);
    assert_eq!(handle_object_post(&q(&[])), S3Operation::BadRequest);
    assert_eq!(handle_object_delete(&q(&[("uploadId", "u")])), S3Operation::AbortMultipartUpload);
    assert_eq!(handle_object_delete(&q(&[])), S3Operation::DeleteObject);
}

#[test]
fn range_header_serves_the_inclusive_bytes() {
    let mut b = tinystore::memory::MemoryBackend::new();
    b.create_bucket("rng").unwrap();
    b.put_object("rng", "k", b"0123456789".to_vec(), ObjectMetadata::default()).unwrap();
    let got = b.get_object("rng", "k", parse_range("bytes=5-9")).unwrap();
    assert_eq!(got.data, b"56789".to_vec());
    let one = b.get_object("rng", "k", parse_range("bytes=5-5")).unwrap();
    assert_eq!(one.data, b"5".to_vec());
}

#[test]
fn range_header_round_trip() {
    for (a, b) in [(0u64, 0u64), (5, 9), (7, 1_000_000), (3, u64::MAX - 1)] {
        assert_eq!(parse_range(&format!("bytes={}-{}", a, b)), Some(Range { start: a, end: Some(b + 1) }));
    }
    assert_eq!(parse_range(&format!("bytes={}-{}", 4, u64::MAX)), Some(Range { start: 4, end: None }));
}
