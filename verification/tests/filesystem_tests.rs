//! The filesystem backend's decisions: listings of walked files, the upload registry and statistics.

use tinystore::backend::{CompletedPart, ListObjectsParams, ListObjectsResult, PartInfo};
use tinystore::error::StorageError;
use tinystore::filesystem::{list_walked_objects, tally_stats, UploadRegistry};
use tinystore::model::{ObjectInfo, ObjectMetadata};
use tinystore::time::Timestamp;

fn meta(len: u64) -> Option<ObjectMetadata> {
    Some(ObjectMetadata::new(len, format!("\"e{}\"", len)))
}

#[test]
fn walked_listing() {
    let entries = vec![
        ("z".to_string(), meta(1)),
        ("d/b".to_string(), meta(2)),
        ("a".to_string(), meta(3)),
        ("unreadable".to_string(), None),
        ("d/a".to_string(), meta(4)),
        ("e/x".to_string(), None),
    ];
    let all = list_walked_objects(&entries, ListObjectsParams::default());
    let keys: Vec<&str> = all.objects.iter().map(|o| o.key.as_str()).collect();
    assert_eq!(keys, vec!["a", "d/a", "d/b", "z"]);
    assert_eq!(all.objects[0].size, 3);
    assert_eq!(all.objects[0].etag, "\"e3\"");
    let top = list_walked_objects(&entries, ListObjectsParams { delimiter: Some("/".into()), ..Default::default() });
    let keys: Vec<&str> = top.objects.iter().map(|o| o.key.as_str()).collect();
    assert_eq!(keys, vec!["a", "z"]);
    let mut cps = top.common_prefixes.clone();
    cps.sort();
    assert_eq!(cps, vec!["d/".to_string(), "e/".to_string()]);
    let one = list_walked_objects(&entries, ListObjectsParams { prefix: Some("d/".into()), max_keys: Some(1), ..Default::default() });
    assert_eq!(one.objects.len(), 1);
    assert_eq!(one.objects[0].key, "d/a");
    assert!(one.is_truncated);
    assert_eq!(one.next_continuation_token.as_deref(), Some("d/a"));
    let two = list_walked_objects(
        &entries,
        ListObjectsParams { prefix: Some("d/".into()), max_keys: Some(1), continuation_token: Some("d/a".into()), ..Default::default() },
    );
    assert_eq!(two.objects.len(), 1);
    assert_eq!(two.objects[0].key, "d/b");
    assert!(!two.is_truncated);
    assert_eq!(two.next_continuation_token, None);
}

#[test]
fn registry_life_cycle() {
    let mut reg = UploadRegistry::new();
    assert!(!reg.contains("u"));
    reg.create("b".into(), "k".into(), "u".into(), ObjectMetadata::default());
    assert!(reg.contains("u"));
    reg.record_part("u", PartInfo { part_number: 2, etag: "e2".into(), size: 2 });
    reg.record_part("u", PartInfo { part_number: 1, etag: "e1".into(), size: 1 });
    reg.record_part("u", PartInfo { part_number: 2, etag: "e2b".into(), size: 5 });
    let parts = reg.list_parts("u").unwrap();
    let numbers: Vec<(u32, &str, u64)> = parts.iter().map(|p| (p.part_number, p.etag.as_str(), p.size)).collect();
    assert_eq!(numbers, vec![(1, "e1", 1), (2, "e2b", 5)]);
    match reg.list_parts("other") {
        Err(StorageError::InternalError(m)) => assert_eq!(m, "Upload not found"),
        _ => panic!("expected an unknown upload"),
    }
    let upload = reg.take("u").unwrap();
    assert_eq!(upload.bucket, "b");
    assert_eq!(upload.key, "k");
    assert!(!reg.contains("u"));
    assert!(reg.take("u").is_none());
    let wanted = vec![
        CompletedPart { part_number: 1, etag: String::new() },
        CompletedPart { part_number: 3, etag: String::new() },
        CompletedPart { part_number: 4, etag: String::new() },
    ];
    assert_eq!(upload.first_missing_part(&wanted), Some(3));
    let first = vec![CompletedPart { part_number: 1, etag: String::new() }];
    assert_eq!(upload.first_missing_part(&first), None);
}

#[test]
fn stats_tally() {
    let info = |size: u64| ObjectInfo {
        key: "k".into(),
        last_modified: Timestamp { secs: 0, nanos: 0 },
        etag: String::new(),
        size,
        storage_class: "STANDARD".into(),
    };
    let listing = |sizes: Vec<u64>| ListObjectsResult {
        objects: sizes.into_iter().map(info).collect(),
        common_prefixes: vec![],
        is_truncated: false,
        next_continuation_token: None,
    };
    let s = tally_stats(2, &vec![listing(vec![5, 5]), listing(vec![3])]).unwrap();
    assert_eq!((s.total_buckets, s.total_objects, s.total_size_bytes), (2, 3, 13));
    assert!(tally_stats(1, &vec![listing(vec![u64::MAX, 1])]).is_none());
}

#[test]
fn walked_and_memory_listings_agree() {
    let mut mem = tinystore::memory::MemoryBackend::new();
    mem.create_bucket("agree").unwrap();
    let keys = ["z", "a/1", "a/2", "b", "a"];
    for k in keys {
        mem.put_object("agree", k, k.as_bytes().to_vec(), ObjectMetadata::default()).unwrap();
    }
    let entries: Vec<(String, Option<ObjectMetadata>)> =
        keys.iter().map(|k| (k.to_string(), Some(mem.head_object("agree", k).unwrap()))).collect();
    let params = || ListObjectsParams { delimiter: Some("/".into()), max_keys: Some(2), ..Default::default() };
    let walked = list_walked_objects(&entries, params());
    let stored = mem.list_objects("agree", params()).unwrap();
    let names = |l: &ListObjectsResult| l.objects.iter().map(|o| (o.key.clone(), o.etag.clone(), o.size)).collect::<Vec<_>>();
    assert_eq!(names(&walked), names(&stored));
    assert_eq!(walked.common_prefixes, stored.common_prefixes);
    assert_eq!(walked.is_truncated, stored.is_truncated);
    assert_eq!(walked.next_continuation_token, stored.next_continuation_token);
}
