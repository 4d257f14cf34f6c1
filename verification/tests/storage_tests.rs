//! The in-memory backend's rules: names, errors, listings, multipart uploads and metadata.

use tinystore::backend::{apply_range, finalize_metadata, validate_bucket_name, validate_object_key, CompletedPart, ListObjectsParams, Range};
use tinystore::error::StorageError;
use tinystore::memory::MemoryBackend;
use tinystore::model::ObjectMetadata;
use tinystore::time::Timestamp;

fn md(content_type: Option<&str>) -> ObjectMetadata {
    let m = ObjectMetadata::default();
    match content_type {
        Some(c) => m.with_content_type(c.to_string()),
        None => m,
    }
}

#[test]
fn bucket_names_follow_the_rules() {
    assert!(validate_bucket_name("my-bucket-1").is_ok());
    assert!(matches!(validate_bucket_name(""), Err(StorageError::InvalidBucketName(_))));
    assert!(matches!(validate_bucket_name("Upper"), Err(StorageError::InvalidBucketName(_))));
    assert!(matches!(validate_bucket_name("under_score"), Err(StorageError::InvalidBucketName(_))));
    assert!(matches!(validate_bucket_name("a"), Err(StorageError::InvalidBucketName(n)) if n == "a"));
    assert!(matches!(validate_bucket_name("ab"), Err(StorageError::InvalidBucketName(_))));
    assert!(validate_bucket_name("abc").is_ok());
    assert!(validate_bucket_name(&"a".repeat(63)).is_ok());
    assert!(validate_bucket_name(&"a".repeat(64)).is_err());
    assert!(validate_object_key("k").is_ok());
    assert!(matches!(validate_object_key(""), Err(StorageError::InvalidObjectKey(_))));
    assert!(validate_object_key(&"k".repeat(1024)).is_ok());
    assert!(validate_object_key(&"k".repeat(1025)).is_err());
    assert!(validate_object_key(&"é".repeat(513)).is_err());
}

#[test]
fn bucket_errors() {
    let mut b = MemoryBackend::new();
    assert!(matches!(b.create_bucket("Bad Name"), Err(StorageError::InvalidBucketName(n)) if n == "Bad Name"));
    b.create_bucket("bk1").unwrap();
    assert!(matches!(b.create_bucket("bk1"), Err(StorageError::BucketAlreadyExists(n)) if n == "bk1"));
    assert!(matches!(b.delete_bucket("zz"), Err(StorageError::BucketNotFound(n)) if n == "zz"));
    assert!(matches!(b.get_bucket_info("zz"), Err(StorageError::BucketNotFound(_))));
    assert_eq!(b.get_bucket_info("bk1").unwrap().name, "bk1");
    assert!(!b.bucket_exists("zz").unwrap());
    b.create_bucket("bk2").unwrap();
    let mut names: Vec<String> = b.list_buckets().unwrap().into_iter().map(|x| x.name).collect();
    names.sort();
    assert_eq!(names, vec!["bk1".to_string(), "bk2".to_string()]);
    b.delete_bucket("bk1").unwrap();
    assert!(!b.bucket_exists("bk1").unwrap());
    b.create_bucket("bk1").unwrap();
}

#[test]
fn object_errors() {
    let mut b = MemoryBackend::new();
    assert!(matches!(b.put_object("nob", "", vec![], md(None)), Err(StorageError::InvalidObjectKey(_))));
    assert!(matches!(b.put_object("nob", "k", vec![], md(None)), Err(StorageError::BucketNotFound(_))));
    b.create_bucket("bkt").unwrap();
    match b.get_object("bkt", "missing", None) {
        Err(StorageError::ObjectNotFound { bucket, key }) => {
            assert_eq!(bucket, "bkt");
            assert_eq!(key, "missing");
        },
        _ => panic!("expected ObjectNotFound"),
    }
    assert!(matches!(b.head_object("bkt", "missing"), Err(StorageError::ObjectNotFound { .. })));
    assert!(matches!(b.delete_object("bkt", "missing"), Err(StorageError::ObjectNotFound { .. })));
    assert!(matches!(b.get_object("x", "k", None), Err(StorageError::BucketNotFound(_))));
    b.put_object("bkt", "k", b"0123456789".to_vec(), md(None)).unwrap();
    match b.get_object("bkt", "k", Some(Range { start: 5, end: Some(20) })) {
        Err(StorageError::InvalidRange(m)) => assert_eq!(m, "5-20"),
        _ => panic!("expected InvalidRange"),
    }
    match b.get_object("bkt", "k", Some(Range { start: 10, end: None })) {
        Err(StorageError::InvalidRange(m)) => assert_eq!(m, "10-10"),
        _ => panic!("expected InvalidRange"),
    }
    match b.get_object("bkt", "k", Some(Range { start: 4, end: Some(4) })) {
        Err(StorageError::InvalidRange(m)) => assert_eq!(m, "4-4"),
        _ => panic!("expected InvalidRange"),
    }
}

#[test]
fn put_sets_etag_length_and_keeps_user_metadata() {
    let mut b = MemoryBackend::new();
    b.create_bucket("bkt").unwrap();
    let meta = md(Some("text/plain")).with_metadata("color".into(), "blue".into());
    let put = b.put_object("bkt", "k", b"hello".to_vec(), meta).unwrap();
    assert_eq!(put.etag, "\"5d41402abc4b2a76b9719d911017c592\"");
    let head = b.head_object("bkt", "k").unwrap();
    assert_eq!(head.etag, put.etag);
    assert_eq!(head.content_length, 5);
    assert_eq!(head.content_type.as_deref(), Some("text/plain"));
    assert_eq!(head.metadata, vec![("color".to_string(), "blue".to_string())]);
    let got = b.get_object("bkt", "k", None).unwrap();
    assert_eq!(got.metadata.etag, put.etag);
    assert_eq!(got.range, None);
    b.put_object("bkt", "k", b"bye".to_vec(), md(None)).unwrap();
    assert_eq!(b.get_object("bkt", "k", None).unwrap().data, b"bye".to_vec());
    assert_eq!(b.list_objects("bkt", ListObjectsParams::default()).unwrap().objects.len(), 1);
}

#[test]
fn put_at_records_the_given_time() {
    let mut b = MemoryBackend::new();
    b.create_bucket_at("bkt", Timestamp { secs: 100, nanos: 7 }).unwrap();
    assert_eq!(b.get_bucket_info("bkt").unwrap().creation_date, Timestamp { secs: 100, nanos: 7 });
    b.put_object_at("bkt", "k", vec![1, 2, 3], md(None), Timestamp { secs: 200, nanos: 0 }).unwrap();
    assert_eq!(b.head_object("bkt", "k").unwrap().last_modified, Timestamp { secs: 200, nanos: 0 });
    b.copy_object_at("bkt", "k", "bkt", "k2", Timestamp { secs: 300, nanos: 0 }).unwrap();
    let copy = b.head_object("bkt", "k2").unwrap();
    assert_eq!(copy.last_modified, Timestamp { secs: 300, nanos: 0 });
    assert_eq!(copy.content_length, 3);
}

#[test]
fn listing_is_sorted_prefixed_and_limited() {
    let mut b = MemoryBackend::new();
    b.create_bucket("lst").unwrap();
    for k in ["c", "a", "b/x", "b/y", "ab", "b/z/w"] {
        b.put_object("lst", k, k.as_bytes().to_vec(), md(None)).unwrap();
    }
    let all = b.list_objects("lst", ListObjectsParams::default()).unwrap();
    let keys: Vec<&str> = all.objects.iter().map(|o| o.key.as_str()).collect();
    assert_eq!(keys, vec!["a", "ab", "b/x", "b/y", "b/z/w", "c"]);
    assert!(!all.is_truncated);
    assert!(all.objects.iter().all(|o| o.storage_class == "STANDARD"));
    assert_eq!(all.objects[1].size, 2);

    let limited = b.list_objects("lst", ListObjectsParams { max_keys: Some(2), ..Default::default() }).unwrap();
    assert_eq!(limited.objects.len(), 2);
    assert!(limited.is_truncated);
    assert_eq!(limited.next_continuation_token.as_deref(), Some("ab"));

    let mut token = limited.next_continuation_token.clone();
    let mut pages = vec![limited.objects.iter().map(|o| o.key.clone()).collect::<Vec<_>>()];
    while let Some(t) = token {
        let page = b
            .list_objects("lst", ListObjectsParams { max_keys: Some(2), continuation_token: Some(t), ..Default::default() })
            .unwrap();
        pages.push(page.objects.iter().map(|o| o.key.clone()).collect());
        assert_eq!(page.is_truncated, page.next_continuation_token.is_some());
        token = page.next_continuation_token;
    }
    assert_eq!(pages, vec![vec!["a", "ab"], vec!["b/x", "b/y"], vec!["b/z/w", "c"]]);
    let after = b
        .list_objects("lst", ListObjectsParams { continuation_token: Some("b".into()), ..Default::default() })
        .unwrap();
    let keys: Vec<&str> = after.objects.iter().map(|o| o.key.as_str()).collect();
    assert_eq!(keys, vec!["b/x", "b/y", "b/z/w", "c"]);
    assert!(!after.is_truncated);
    assert_eq!(after.next_continuation_token, None);

    let under_b = b
        .list_objects("lst", ListObjectsParams { prefix: Some("b/".into()), delimiter: Some("/".into()), ..Default::default() })
        .unwrap();
    let keys: Vec<&str> = under_b.objects.iter().map(|o| o.key.as_str()).collect();
    assert_eq!(keys, vec!["b/x", "b/y"]);
    assert_eq!(under_b.common_prefixes, vec!["b/z/".to_string()]);

    let top = b.list_objects("lst", ListObjectsParams { delimiter: Some("/".into()), ..Default::default() }).unwrap();
    let keys: Vec<&str> = top.objects.iter().map(|o| o.key.as_str()).collect();
    assert_eq!(keys, vec!["a", "ab", "c"]);
    assert_eq!(top.common_prefixes, vec!["b/".to_string()]);
    assert!(matches!(b.list_objects("none", ListObjectsParams::default()), Err(StorageError::BucketNotFound(_))));
}

#[test]
fn multipart_errors_and_part_listing() {
    let mut b = MemoryBackend::new();
    assert!(matches!(b.create_multipart_upload("none", "k", md(None)), Err(StorageError::BucketNotFound(_))));
    b.create_bucket("mpu").unwrap();
    match b.upload_part("mpu", "k", "nope", 1, vec![1]) {
        Err(StorageError::InternalError(m)) => assert_eq!(m, "Upload not found"),
        _ => panic!("expected an internal error"),
    }
    let id = b.create_multipart_upload("mpu", "k", md(None)).unwrap();
    assert_eq!(id.len(), 36);
    b.upload_part("mpu", "k", &id, 3, b"ccc".to_vec()).unwrap();
    let p1 = b.upload_part("mpu", "k", &id, 1, b"a".to_vec()).unwrap();
    assert_eq!(p1.size, 1);
    assert_eq!(p1.etag, "\"0cc175b9c0f1b6a831c399e269772661\"");
    b.upload_part("mpu", "k", &id, 1, b"aa".to_vec()).unwrap();
    let parts = b.list_parts("mpu", "k", &id).unwrap();
    let numbers: Vec<u32> = parts.iter().map(|p| p.part_number).collect();
    assert_eq!(numbers, vec![1, 3]);
    assert_eq!(parts[0].size, 2);
    assert!(matches!(b.list_parts("mpu", "k", "nope"), Err(StorageError::InternalError(_))));

    let missing = vec![
        CompletedPart { part_number: 1, etag: String::new() },
        CompletedPart { part_number: 2, etag: String::new() },
    ];
    match b.complete_multipart_upload("mpu", "k", &id, missing) {
        Err(StorageError::InternalError(m)) => assert_eq!(m, "Part 2 not found"),
        _ => panic!("expected a missing part"),
    }
    // The upload is withdrawn even though completing failed.
    assert!(b.list_parts("mpu", "k", &id).is_err());
    match b.complete_multipart_upload("mpu", "k", &id, vec![]) {
        Err(StorageError::InternalError(m)) => assert_eq!(m, "Upload not found"),
        _ => panic!("expected an unknown upload"),
    }

    let id2 = b.create_multipart_upload_with_id("mpu", "k2", md(None), "fixed-id".into()).unwrap();
    assert_eq!(id2, "fixed-id");
    b.upload_part("mpu", "k2", "fixed-id", 2, b"world".to_vec()).unwrap();
    b.upload_part("mpu", "k2", "fixed-id", 1, b"hello ".to_vec()).unwrap();
    let done = b
        .complete_multipart_upload(
            "mpu",
            "k2",
            "fixed-id",
            vec![
                CompletedPart { part_number: 2, etag: String::new() },
                CompletedPart { part_number: 1, etag: String::new() },
            ],
        )
        .unwrap();
    assert_eq!(b.get_object("mpu", "k2", None).unwrap().data, b"worldhello ".to_vec());
    assert_eq!(done.etag, b.head_object("mpu", "k2").unwrap().etag);

    b.create_multipart_upload_with_id("mpu", "k3", md(None), "gone".into()).unwrap();
    b.abort_multipart_upload("mpu", "k3", "gone").unwrap();
    b.abort_multipart_upload("mpu", "k3", "gone").unwrap();
    assert!(b.list_parts("mpu", "k3", "gone").is_err());
}

#[test]
fn copy_errors() {
    let mut b = MemoryBackend::new();
    b.create_bucket("src").unwrap();
    assert!(matches!(b.copy_object("src", "none", "src", "d"), Err(StorageError::ObjectNotFound { .. })));
    b.put_object("src", "k", vec![9], md(Some("a/b"))).unwrap();
    assert!(matches!(b.copy_object("src", "k", "nob", "d"), Err(StorageError::BucketNotFound(_))));
    assert!(matches!(b.copy_object("src", "k", "src", ""), Err(StorageError::InvalidObjectKey(_))));
    b.copy_object("src", "k", "src", "d").unwrap();
    assert_eq!(b.head_object("src", "d").unwrap().content_type.as_deref(), Some("a/b"));
}

#[test]
fn stats_count_at_most_a_listing_per_bucket() {
    let mut b = MemoryBackend::new();
    let empty = b.get_stats().unwrap();
    assert_eq!((empty.total_buckets, empty.total_objects, empty.total_size_bytes), (0, 0, 0));
    b.create_bucket("src").unwrap();
    for i in 0..1001u32 {
        b.put_object("src", &format!("k{:04}", i), vec![1, 2], md(None)).unwrap();
    }
    let stats = b.get_stats().unwrap();
    assert_eq!(stats.total_buckets, 1);
    assert_eq!(stats.total_objects, 1000);
    assert_eq!(stats.total_size_bytes, 2000);
}

#[test]
fn apply_range_cuts_bytes() {
    let data = b"abcdef".to_vec();
    assert_eq!(apply_range(&data, &None).unwrap(), data);
    assert_eq!(apply_range(&data, &Some(Range { start: 1, end: Some(3) })).unwrap(), b"bc".to_vec());
    assert_eq!(apply_range(&data, &Some(Range { start: 2, end: None })).unwrap(), b"cdef".to_vec());
    assert!(matches!(apply_range(&data, &Some(Range { start: 6, end: None })), Err(StorageError::InvalidRange(_))));
}

#[test]
fn metadata_builders() {
    let m = ObjectMetadata::new(10, "e".into());
    assert_eq!(m.content_length, 10);
    assert_eq!(m.etag, "e");
    assert!(m.content_type.is_none());
    let m = m
        .with_content_type("text/html".into())
        .with_metadata("a".into(), "1".into())
        .with_metadata("bkt".into(), "2".into())
        .with_metadata("a".into(), "3".into());
    assert_eq!(m.content_type.as_deref(), Some("text/html"));
    assert_eq!(m.metadata, vec![("a".to_string(), "3".to_string()), ("bkt".to_string(), "2".to_string())]);
    let d = ObjectMetadata::default();
    assert_eq!((d.content_length, d.etag.as_str(), d.last_modified), (0, "", Timestamp { secs: 0, nanos: 0 }));
    let (f, etag) = finalize_metadata(m, b"", Timestamp { secs: 5, nanos: 0 });
    assert_eq!(etag, "\"d41d8cd98f00b204e9800998ecf8427e\"");
    assert_eq!(f.etag, etag);
    assert_eq!(f.content_length, 0);
    assert_eq!(f.last_modified, Timestamp { secs: 5, nanos: 0 });
    assert_eq!(f.content_type.as_deref(), Some("text/html"));
}

#[test]
fn storage_error_codes_statuses_and_messages() {
    let cases: Vec<(StorageError, &str, u16, &str)> = vec![
        (StorageError::BucketAlreadyExists("b".into()), "BucketAlreadyExists", 409, "Bucket already exists: b"),
        (StorageError::BucketNotFound("b".into()), "NoSuchBucket", 404, "Bucket not found: b"),
        (StorageError::BucketNotEmpty("b".into()), "BucketNotEmpty", 409, "Bucket not empty: b"),
        (StorageError::InvalidBucketName("b".into()), "InvalidBucketName", 400, "Invalid bucket name: b"),
        (StorageError::ObjectNotFound { bucket: "b".into(), key: "k".into() }, "NoSuchKey", 404, "Object not found: b/k"),
        (StorageError::InvalidObjectKey("k".into()), "InvalidArgument", 400, "Invalid object key: k"),
        (StorageError::IoError("x".into()), "InternalError", 500, "IO error: x"),
        (StorageError::SerializationError("x".into()), "InternalError", 500, "Serialization error: x"),
        (StorageError::InvalidRange("1-2".into()), "InvalidRange", 416, "Invalid range: 1-2"),
        (StorageError::EntityTooLarge, "EntityTooLarge", 400, "Entity too large"),
        (StorageError::InternalError("x".into()), "InternalError", 500, "Internal error: x"),
        (StorageError::NotImplemented("x".into()), "NotImplemented", 501, "Not implemented: x"),
    ];
    for (e, code, status, message) in cases {
        assert_eq!(e.s3_code(), code);
        assert_eq!(e.status_code(), status);
        assert_eq!(e.message(), message);
    }
}
