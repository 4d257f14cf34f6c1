//! The JSON API answers, configuration defaults, command-line credentials and UI formatting.

use tinystore::api::{
    create_credential, created_response, delete_credential, deleted_response, get_stats, list_buckets,
    list_credentials, list_objects, list_objects_params, upload_metadata, ApiResponse, CreateCredentialRequest,
};
use tinystore::auth::{CredentialStore, Credentials};
use tinystore::backend::{ListObjectsResult, StorageStats};
use tinystore::cli::initial_credentials;
use tinystore::config::Config;
use tinystore::error::StorageError;
use tinystore::model::{BucketInfo, ObjectInfo};
use tinystore::time::Timestamp;
use tinystore::ui::format_uptime;

#[test]
fn envelopes() {
    let ok: ApiResponse<u32> = ApiResponse::success(7);
    assert!(ok.success);
    assert_eq!(ok.data, Some(7));
    assert!(ok.error.is_none());
    let err: ApiResponse<u32> = ApiResponse::error("bad".into());
    assert!(!err.success);
    assert!(err.data.is_none());
    assert_eq!(err.error.as_deref(), Some("bad"));
}

#[test]
fn endpoint_answers() {
    let s = get_stats(Ok(StorageStats { total_buckets: 1, total_objects: 2, total_size_bytes: 3 }));
    let d = s.data.unwrap();
    assert_eq!((d.total_buckets, d.total_objects, d.total_size_bytes), (1, 2, 3));
    let s = get_stats(Err(StorageError::IoError("disk".into())));
    assert_eq!(s.error.as_deref(), Some("IO error: disk"));

    let b = list_buckets(Ok(vec![BucketInfo::created_at("b".into(), Timestamp { secs: 0, nanos: 0 })]));
    let v = b.data.unwrap();
    assert_eq!(v[0].name, "b");
    assert_eq!(v[0].created, "1970-01-01T00:00:00.000Z");
    assert_eq!(v[0].object_count, 0);

    let (status, body) = created_response(Ok(()));
    assert_eq!(status, 201);
    assert!(body.success);
    let (status, body) = created_response(Err(StorageError::InvalidBucketName("X".into())));
    assert_eq!(status, 400);
    assert_eq!(body.error.as_deref(), Some("Invalid bucket name: X"));
    let (status, _) = deleted_response(Ok(()));
    assert_eq!(status, 200);
    let (status, body) = deleted_response(Err(StorageError::BucketNotEmpty("b".into())));
    assert_eq!(status, 400);
    assert_eq!(body.error.as_deref(), Some("Bucket not empty: b"));

    let params = list_objects_params(&vec![("max_keys".into(), "5".into()), ("prefix".into(), "p".into())]);
    assert_eq!(params.max_keys, Some(5));
    assert_eq!(params.prefix.as_deref(), Some("p"));
    let listing = ListObjectsResult {
        objects: vec![ObjectInfo {
            key: "k".into(),
            last_modified: Timestamp { secs: 0, nanos: 0 },
            etag: "e".into(),
            size: 4,
            storage_class: "STANDARD".into(),
        }],
        common_prefixes: vec![],
        is_truncated: false,
        next_continuation_token: None,
    };
    let objs = list_objects(Ok(listing)).data.unwrap();
    assert_eq!((objs[0].key.as_str(), objs[0].size, objs[0].etag.as_str()), ("k", 4, "e"));
    assert_eq!(objs[0].last_modified, "1970-01-01T00:00:00.000Z");

    let m = upload_metadata(b"abc");
    assert_eq!(m.etag, "900150983cd24fb0d6963f7d28e17f72");
    assert_eq!(m.content_length, 3);
}

#[test]
fn credential_endpoints() {
    let mut store = CredentialStore::new();
    store.add(Credentials::new("admin".into(), "s".into(), true));
    let (status, created) = create_credential(&mut store, CreateCredentialRequest { description: "ci".into() });
    assert_eq!(status, 201);
    let info = created.data.unwrap();
    assert!(info.access_key.starts_with("AKIA"));
    assert_eq!(info.access_key.len(), 36);
    assert_eq!(info.id, info.access_key);
    assert_eq!(info.description, "ci");
    let stored = store.get(&info.access_key).unwrap();
    assert!(!stored.is_admin);
    assert_eq!(stored.secret_key.len(), 32);
    for simple in [&info.access_key[4..], stored.secret_key.as_str()] {
        assert!(simple.chars().all(|c| c.is_ascii_digit() || ('a'..='f').contains(&c)));
        assert_eq!(simple.as_bytes()[12], b'4');
        assert!(b"89ab".contains(&simple.as_bytes()[16]));
    }

    let (status, listed) = list_credentials(&store);
    assert_eq!(status, 200);
    let mut keys: Vec<String> = listed.data.unwrap().into_iter().map(|c| c.access_key).collect();
    keys.sort();
    let mut expected = vec!["admin".to_string(), info.access_key.clone()];
    expected.sort();
    assert_eq!(keys, expected);

    let (status, _) = delete_credential(&mut store, &info.access_key);
    assert_eq!(status, 200);
    let (status, body) = delete_credential(&mut store, &info.access_key);
    assert_eq!(status, 404);
    assert_eq!(body.error.as_deref(), Some("Credential not found"));
}

#[test]
fn configuration_defaults_and_overrides() {
    let c = Config::default();
    assert_eq!(c.server.host, "0.0.0.0");
    assert_eq!(c.server.port, 9000);
    assert_eq!(c.storage.backend, "filesystem");
    assert_eq!(c.storage.data_dir, "./data");
    assert!(c.auth.enabled);
    assert!(c.ui.enabled);
    assert_eq!(c.ui.path, "/ui");
    let c = Config::default().with_overrides(Some("127.0.0.1".into()), Some("8080".into()), Some("/var/ts".into()));
    assert_eq!(c.server.host, "127.0.0.1");
    assert_eq!(c.server.port, 8080);
    assert_eq!(c.storage.data_dir, "/var/ts");
    let c = Config::default().with_overrides(None, Some("70000".into()), None);
    assert_eq!(c.server.port, 9000);
    let c = Config::default().with_overrides(None, Some("port".into()), None);
    assert_eq!(c.server.port, 9000);
}

#[test]
fn starting_credentials() {
    let c = initial_credentials(Some("a".into()), Some("b".into()));
    assert_eq!((c.access_key.as_str(), c.secret_key.as_str(), c.is_admin), ("a", "b", true));
    let c = initial_credentials(Some("a".into()), None);
    assert_eq!((c.access_key.as_str(), c.secret_key.as_str(), c.is_admin), ("tinystore", "tinystore123", true));
}

#[test]
fn uptime_formatting() {
    assert_eq!(format_uptime(0), "0s");
    assert_eq!(format_uptime(59), "59s");
    assert_eq!(format_uptime(61), "1m 1s");
    assert_eq!(format_uptime(3600), "1h 0m 0s");
    assert_eq!(format_uptime(90061), "1d 1h 1m 1s");
}
