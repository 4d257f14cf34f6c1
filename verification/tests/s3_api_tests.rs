//! Storage flows through the in-memory backend: bucket and object life cycles, multipart
//! uploads, listings, copies, ranges and statistics.

use tinystore::backend::{CompletedPart, ListObjectsParams, Range};
use tinystore::memory::MemoryBackend;
use tinystore::model::ObjectMetadata;

#[test]
fn test_storage_backend_integration() {
    let mut backend = MemoryBackend::new();

    backend.create_bucket("test-bucket").unwrap();
    assert!(backend.bucket_exists("test-bucket").unwrap());

    let data = b"integration test data".to_vec();
    let metadata = ObjectMetadata::default();

    let put_result = backend
        .put_object("test-bucket", "test-key", data.clone(), metadata)
        .unwrap();
    assert!(!put_result.etag.is_empty());

    let get_result = backend.get_object("test-bucket", "test-key", None).unwrap();
    assert_eq!(get_result.data, data);

    backend.delete_object("test-bucket", "test-key").unwrap();
    backend.delete_bucket("test-bucket").unwrap();
}

#[test]
fn test_multipart_upload_integration() {
    let mut backend = MemoryBackend::new();
    backend.create_bucket("multipart-test").unwrap();

    let metadata = ObjectMetadata::default();
    let upload_id = backend
        .create_multipart_upload("multipart-test", "large-file", metadata)
        .unwrap();

    let parts = vec![b"Part 1 ".to_vec(), b"Part 2 ".to_vec(), b"Part 3".to_vec()];

    let mut completed_parts = Vec::new();
    for (i, part_data) in parts.iter().enumerate() {
        let part_number = (i + 1) as u32;
        let part_info = backend
            .upload_part("multipart-test", "large-file", &upload_id, part_number, part_data.clone())
            .unwrap();
        completed_parts.push(CompletedPart { part_number, etag: part_info.etag });
    }

    let result = backend
        .complete_multipart_upload("multipart-test", "large-file", &upload_id, completed_parts)
        .unwrap();
    assert!(!result.etag.is_empty());

    let get_result = backend.get_object("multipart-test", "large-file", None).unwrap();
    assert_eq!(get_result.data, b"Part 1 Part 2 Part 3".to_vec());

    backend.delete_object("multipart-test", "large-file").unwrap();
    backend.delete_bucket("multipart-test").unwrap();
}

#[test]
fn test_list_objects_integration() {
    let mut backend = MemoryBackend::new();
    backend.create_bucket("list-test").unwrap();

    let metadata = ObjectMetadata::default();
    let objects = vec![
        ("file1.txt", "data1"),
        ("file2.txt", "data2"),
        ("dir1/file3.txt", "data3"),
        ("dir1/file4.txt", "data4"),
        ("dir2/file5.txt", "data5"),
    ];

    for (key, data) in &objects {
        backend
            .put_object("list-test", key, data.as_bytes().to_vec(), metadata.clone())
            .unwrap();
    }

    let params = ListObjectsParams::default();
    let result = backend.list_objects("list-test", params).unwrap();
    assert_eq!(result.objects.len(), 5);

    let params = ListObjectsParams { prefix: Some("dir1/".to_string()), ..Default::default() };
    let result = backend.list_objects("list-test", params).unwrap();
    assert_eq!(result.objects.len(), 2);

    let params = ListObjectsParams { delimiter: Some("/".to_string()), ..Default::default() };
    let result = backend.list_objects("list-test", params).unwrap();
    assert_eq!(result.objects.len(), 2);
    assert_eq!(result.common_prefixes.len(), 2);

    for (key, _) in &objects {
        backend.delete_object("list-test", key).unwrap();
    }
    backend.delete_bucket("list-test").unwrap();
}

#[test]
fn test_copy_object_integration() {
    let mut backend = MemoryBackend::new();
    backend.create_bucket("source").unwrap();
    backend.create_bucket("dest").unwrap();

    let data = b"data to copy".to_vec();
    let metadata = ObjectMetadata::default();
    backend.put_object("source", "original.txt", data.clone(), metadata).unwrap();

    let result = backend.copy_object("source", "original.txt", "dest", "copy.txt").unwrap();
    assert!(!result.etag.is_empty());

    let source_result = backend.get_object("source", "original.txt", None).unwrap();
    let dest_result = backend.get_object("dest", "copy.txt", None).unwrap();
    assert_eq!(source_result.data, data);
    assert_eq!(dest_result.data, data);

    backend.delete_object("source", "original.txt").unwrap();
    backend.delete_object("dest", "copy.txt").unwrap();
    backend.delete_bucket("source").unwrap();
    backend.delete_bucket("dest").unwrap();
}

#[test]
fn test_bucket_not_empty_error() {
    let mut backend = MemoryBackend::new();
    backend.create_bucket("not-empty").unwrap();

    let metadata = ObjectMetadata::default();
    backend.put_object("not-empty", "file.txt", b"data".to_vec(), metadata).unwrap();

    let result = backend.delete_bucket("not-empty");
    assert!(result.is_err());

    backend.delete_object("not-empty", "file.txt").unwrap();
    backend.delete_bucket("not-empty").unwrap();
}

#[test]
fn test_range_request_integration() {
    let mut backend = MemoryBackend::new();
    backend.create_bucket("range-test").unwrap();

    let data = b"0123456789ABCDEFGHIJ".to_vec();
    let metadata = ObjectMetadata::default();
    backend.put_object("range-test", "data.bin", data, metadata).unwrap();

    let range = Range { start: 5, end: Some(10) };
    let result = backend.get_object("range-test", "data.bin", Some(range)).unwrap();
    assert_eq!(result.data, b"56789".to_vec());

    let range = Range { start: 10, end: None };
    let result = backend.get_object("range-test", "data.bin", Some(range)).unwrap();
    assert_eq!(result.data, b"ABCDEFGHIJ".to_vec());

    backend.delete_object("range-test", "data.bin").unwrap();
    backend.delete_bucket("range-test").unwrap();
}

#[test]
fn test_storage_stats_integration() {
    let mut backend = MemoryBackend::new();

    backend.create_bucket("stats-1").unwrap();
    backend.create_bucket("stats-2").unwrap();

    let metadata = ObjectMetadata::default();
    backend.put_object("stats-1", "file1", b"12345".to_vec(), metadata.clone()).unwrap();
    backend.put_object("stats-1", "file2", b"67890".to_vec(), metadata.clone()).unwrap();
    backend.put_object("stats-2", "file3", b"abc".to_vec(), metadata).unwrap();

    let stats = backend.get_stats().unwrap();
    assert_eq!(stats.total_buckets, 2);
    assert_eq!(stats.total_objects, 3);
    assert_eq!(stats.total_size_bytes, 13);

    backend.delete_object("stats-1", "file1").unwrap();
    backend.delete_object("stats-1", "file2").unwrap();
    backend.delete_object("stats-2", "file3").unwrap();
    backend.delete_bucket("stats-1").unwrap();
    backend.delete_bucket("stats-2").unwrap();
}
