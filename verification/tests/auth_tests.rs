//! Credentials, signatures and the request check.

use tinystore::auth::{extract_access_key, AuthError, AuthLayer, CredentialStore, Credentials, IncomingRequest};
use tinystore::sigv4::{parse_authorization, SignatureV4};
use tinystore::time::Timestamp;

fn example_headers() -> Vec<(String, String)> {
    vec![
        ("Host".to_string(), "examplebucket.s3.amazonaws.com".to_string()),
        ("Range".to_string(), "bytes=0-9".to_string()),
        (
            "x-amz-content-sha256".to_string(),
            "e3b0c44298fc1c149afbf4c8996fb92427ae41e4649b934ca495991b7852b855".to_string(),
        ),
        ("x-amz-date".to_string(), "20130524T000000Z".to_string()),
    ]
}

const EXAMPLE_SECRET: &str = "wJalrXUtnFEMI/K7MDENG/bPxRfiCYEXAMPLEKEY";
const EXAMPLE_SIGNATURE: &str = "f0e8bdb87c964420e857bd35b5d6ed310bd44f0170aba48dd91039c6036bdb41";
const EMPTY_SHA256: &str = "e3b0c44298fc1c149afbf4c8996fb92427ae41e4649b934ca495991b7852b855";

#[test]
fn signature_matches_published_example() {
    let sig = SignatureV4::calculate_signature(
        "SECRET-REDACTED",
        EXAMPLE_SECRET,
        "GET",
        "/test.txt",
        "",
        &example_headers(),
        EMPTY_SHA256,
        Timestamp { secs: 1369353600, nanos: 0 },
        "us-east-1",
    )
    .unwrap();
    assert_eq!(sig, EXAMPLE_SIGNATURE);
}

#[test]
fn published_example_verifies() {
    let header = format!(
        "AWS4-HMAC-SHA256 Credential=SECRET-REDACTED/20130524/us-east-1/s3/aws4_request,SignedHeaders=host;range;x-amz-content-sha256;x-amz-date,Signature={}",
        EXAMPLE_SIGNATURE
    );
    let lower: Vec<(String, String)> =
        example_headers().into_iter().map(|(k, v)| (k.to_ascii_lowercase(), v)).collect();
    let ok = SignatureV4::verify_signature(
        &header, "GET", "/test.txt", "", &lower, EMPTY_SHA256, EXAMPLE_SECRET, "us-east-1",
    )
    .unwrap();
    assert!(ok);
    let wrong = SignatureV4::verify_signature(
        &header, "GET", "/test.txt", "", &lower, EMPTY_SHA256, "another-secret", "us-east-1",
    )
    .unwrap();
    assert!(!wrong);
    let other_region = SignatureV4::verify_signature(
        &header, "GET", "/test.txt", "", &lower, EMPTY_SHA256, EXAMPLE_SECRET, "eu-west-1",
    )
    .unwrap();
    assert!(!other_region);
}

#[test]
fn calculated_signature_round_trips() {
    let headers = vec![
        ("Host".to_string(), "localhost:9000".to_string()),
        ("X-Amz-Date".to_string(), "20240102T030405Z".to_string()),
    ];
    let ts = Timestamp { secs: 1704164645, nanos: 0 };
    let sig = SignatureV4::calculate_signature(
        "tinystore", "tinystore123", "PUT", "/bucket/key", "b=2&a=1&a", &headers, "UNSIGNED-PAYLOAD", ts, "us-east-1",
    )
    .unwrap();
    let header = format!(
        "AWS4-HMAC-SHA256 Credential=tinystore/20240102/us-east-1/s3/aws4_request, SignedHeaders=host;x-amz-date, Signature={}",
        sig
    );
    let lower: Vec<(String, String)> =
        headers.into_iter().map(|(k, v)| (k.to_ascii_lowercase(), v)).collect();
    assert!(SignatureV4::verify_signature(
        &header, "PUT", "/bucket/key", "a=&a=1&b=2", &lower, "UNSIGNED-PAYLOAD", "tinystore123", "us-east-1"
    )
    .unwrap());
    assert!(!SignatureV4::verify_signature(
        &header, "PUT", "/bucket/other", "a=&a=1&b=2", &lower, "UNSIGNED-PAYLOAD", "tinystore123", "us-east-1"
    )
    .unwrap());
}

#[test]
fn hash_payload_is_hex_sha256() {
    assert_eq!(SignatureV4::hash_payload(b""), EMPTY_SHA256);
    assert_eq!(
        SignatureV4::hash_payload(b"abc"),
        "ba7816bf8f01cfea414140de5dae2223b00361a396177a9cb410ff61f20015ad"
    );
}

#[test]
fn authorization_header_errors() {
    assert!(matches!(parse_authorization("Basic abc"), Err(AuthError::InvalidAuthorizationHeader(_))));
    assert!(matches!(
        parse_authorization("AWS4-HMAC-SHA256 SignedHeaders=host, Signature=ab"),
        Err(AuthError::MissingCredential)
    ));
    match parse_authorization("AWS4-HMAC-SHA256 Credential=AK/20240101/us-east-1/s3, SignedHeaders=host, Signature=ab") {
        Err(AuthError::InvalidCredentialFormat(c)) => assert_eq!(c, "AK/20240101/us-east-1/s3"),
        other => panic!("unexpected {:?}", other.is_ok()),
    }
    assert!(matches!(
        parse_authorization("AWS4-HMAC-SHA256 Credential=AK/20240101/us-east-1/s3/aws4_request, Signature=ab"),
        Err(AuthError::InvalidAuthorizationHeader(_))
    ));
    let p = parse_authorization(
        "AWS4-HMAC-SHA256 Credential=AK/20240101/us-east-1/s3/aws4_request, SignedHeaders=host;x-amz-date, Signature=ab",
    )
    .unwrap();
    assert_eq!(p.access_key, "AK");
    assert_eq!(p.date, "20240101");
    assert_eq!(p.region, "us-east-1");
    assert_eq!(p.service, "s3");
    assert_eq!(p.signed_headers, vec!["host".to_string(), "x-amz-date".to_string()]);
    assert_eq!(p.signature, "ab");
}

#[test]
fn verify_requires_date_and_signed_headers() {
    let header = "AWS4-HMAC-SHA256 Credential=AK/20240101/us-east-1/s3/aws4_request, SignedHeaders=host;x-amz-date, Signature=ab";
    let no_date = vec![("host".to_string(), "h".to_string())];
    match SignatureV4::verify_signature(header, "GET", "/", "", &no_date, "UNSIGNED-PAYLOAD", "s", "us-east-1") {
        Err(AuthError::MissingRequiredHeader(h)) => assert_eq!(h, "x-amz-date"),
        _ => panic!("expected a missing header"),
    }
    let no_host = vec![("x-amz-date".to_string(), "20240101T000000Z".to_string())];
    match SignatureV4::verify_signature(header, "GET", "/", "", &no_host, "UNSIGNED-PAYLOAD", "s", "us-east-1") {
        Err(AuthError::MissingRequiredHeader(h)) => assert_eq!(h, "host"),
        _ => panic!("expected a missing header"),
    }
}

#[test]
fn extract_access_key_reads_credential() {
    assert_eq!(
        extract_access_key("AWS4-HMAC-SHA256 Credential=AKID/20240101/us-east-1/s3/aws4_request, SignedHeaders=host").unwrap(),
        "AKID"
    );
    assert_eq!(extract_access_key("Credential=plain").unwrap(), "plain");
    assert_eq!(
        extract_access_key("no credential here").unwrap_err(),
        "Missing Credential in authorization header"
    );
}

#[test]
fn auth_error_codes_and_messages() {
    let cases: Vec<(AuthError, u16, &str, &str)> = vec![
        (AuthError::MissingAuthorizationHeader, 403, "AccessDenied", "Missing authorization header"),
        (AuthError::InvalidAuthorizationHeader("x".into()), 400, "InvalidArgument", "Invalid authorization header: x"),
        (AuthError::MissingCredential, 400, "InvalidArgument", "Missing credential in authorization header"),
        (AuthError::InvalidCredentialFormat("x".into()), 400, "InvalidArgument", "Invalid credential format: x"),
        (AuthError::UnknownAccessKey("k".into()), 403, "InvalidAccessKeyId", "Unknown access key: k"),
        (AuthError::SignatureVerificationFailed, 403, "SignatureDoesNotMatch", "Signature verification failed"),
        (AuthError::InvalidDateFormat("d".into()), 400, "InvalidArgument", "Invalid date format: d"),
        (AuthError::InvalidHmacKey("k".into()), 500, "InternalError", "Invalid HMAC key: k"),
        (AuthError::InvalidTimestamp, 403, "RequestTimeTooSkewed", "Request timestamp too old or too far in future"),
        (AuthError::MissingRequiredHeader("h".into()), 400, "InvalidArgument", "Missing required header: h"),
        (AuthError::InternalError("e".into()), 500, "InternalError", "Internal authentication error: e"),
    ];
    for (e, status, code, message) in cases {
        assert_eq!(e.status_code(), status);
        assert_eq!(e.s3_code(), code);
        assert_eq!(e.message(), message);
    }
}

#[test]
fn credential_store_add_get_remove() {
    let mut store = CredentialStore::new();
    store.add(Credentials::new("ak".into(), "sk".into(), true));
    store.add(Credentials::new("other".into(), "x".into(), false));
    let c = store.get("ak").unwrap();
    assert_eq!(c.secret_key, "sk");
    assert!(c.is_admin);
    store.add(Credentials::new("ak".into(), "sk2".into(), false));
    assert_eq!(store.get("ak").unwrap().secret_key, "sk2");
    let mut keys = store.list_keys();
    keys.sort();
    assert_eq!(keys, vec!["ak".to_string(), "other".to_string()]);
    assert!(store.remove("ak"));
    assert!(!store.remove("ak"));
    assert!(store.get("ak").is_none());
    assert_eq!(store.list_keys(), vec!["other".to_string()]);
}

fn request(headers: Vec<(&str, Option<&str>)>) -> IncomingRequest {
    IncomingRequest {
        method: "GET".into(),
        path: "/test.txt".into(),
        query: String::new(),
        headers: headers
            .into_iter()
            .map(|(k, v)| (k.to_string(), v.map(|s| s.to_string())))
            .collect(),
    }
}

#[test]
fn authenticate_decisions() {
    let mut store = CredentialStore::new();
    store.add(Credentials::new("SECRET-REDACTED".into(), EXAMPLE_SECRET.into(), true));
    let signed = format!(
        "AWS4-HMAC-SHA256 Credential=SECRET-REDACTED/20130524/us-east-1/s3/aws4_request,SignedHeaders=host;range;x-amz-content-sha256;x-amz-date,Signature={}",
        EXAMPLE_SIGNATURE
    );
    let good = request(vec![
        ("host", Some("examplebucket.s3.amazonaws.com")),
        ("range", Some("bytes=0-9")),
        ("x-amz-content-sha256", Some(EMPTY_SHA256)),
        ("x-amz-date", Some("20130524T000000Z")),
        ("authorization", Some(&signed)),
    ]);
    assert_eq!(AuthLayer::authenticate(&store, "us-east-1", true, &good), Ok(()));
    assert_eq!(AuthLayer::authenticate(&store, "eu-west-1", true, &good), Err(403));

    let none = request(vec![("host", Some("h"))]);
    assert_eq!(AuthLayer::authenticate(&store, "us-east-1", true, &none), Err(401));
    assert_eq!(AuthLayer::authenticate(&store, "us-east-1", false, &none), Ok(()));

    let unreadable = request(vec![("authorization", None)]);
    assert_eq!(AuthLayer::authenticate(&store, "us-east-1", true, &unreadable), Err(400));

    let no_credential = request(vec![("authorization", Some("AWS4-HMAC-SHA256 Signature=x"))]);
    assert_eq!(AuthLayer::authenticate(&store, "us-east-1", true, &no_credential), Err(400));

    let unknown = request(vec![(
        "authorization",
        Some("AWS4-HMAC-SHA256 Credential=nobody/20130524/us-east-1/s3/aws4_request, SignedHeaders=host, Signature=x"),
    )]);
    assert_eq!(AuthLayer::authenticate(&store, "us-east-1", true, &unknown), Err(403));

    let missing_date = request(vec![
        ("host", Some("h")),
        (
            "authorization",
            Some("AWS4-HMAC-SHA256 Credential=SECRET-REDACTED/20130524/us-east-1/s3/aws4_request, SignedHeaders=host, Signature=x"),
        ),
    ]);
    assert_eq!(AuthLayer::authenticate(&store, "us-east-1", true, &missing_date), Err(400));
}

#[test]
fn auth_layer_defaults() {
    let layer = AuthLayer::default();
    assert_eq!(layer.region, "us-east-1");
    assert!(layer.enabled);
    let layer = AuthLayer::with_defaults(CredentialStore::new());
    assert_eq!(layer.region, "us-east-1");
    assert!(layer.enabled);
    let layer = AuthLayer::new(CredentialStore::new(), "eu-west-1".into(), false);
    assert_eq!(layer.region, "eu-west-1");
    assert!(!layer.enabled);
}

#[test]
fn headers_to_map_keeps_text_values() {
    let headers = vec![
        ("a".to_string(), Some("1".to_string())),
        ("b".to_string(), None),
        ("c".to_string(), Some("3".to_string())),
    ];
    assert_eq!(
        AuthLayer::headers_to_map(&headers),
        vec![("a".to_string(), "1".to_string()), ("c".to_string(), "3".to_string())]
    );
}

#[test]
fn signed_request_is_accepted_by_authenticate() {
    let mut store = CredentialStore::new();
    store.add(Credentials::new("tinystore".into(), "tinystore123".into(), true));
    let signed = vec![
        ("host".to_string(), "localhost:9000".to_string()),
        ("x-amz-date".to_string(), "20240102T030405Z".to_string()),
    ];
    let ts = Timestamp { secs: 1704164645, nanos: 0 };
    let sig = SignatureV4::calculate_signature(
        "tinystore", "tinystore123", "PUT", "/bucket/key", "", &signed, "UNSIGNED-PAYLOAD", ts, "us-east-1",
    )
    .unwrap();
    let authorization = format!(
        "AWS4-HMAC-SHA256 Credential=tinystore/20240102/us-east-1/s3/aws4_request, SignedHeaders=host;x-amz-date, Signature={}",
        sig
    );
    let mut headers: Vec<(String, Option<String>)> =
        signed.iter().map(|(k, v)| (k.clone(), Some(v.clone()))).collect();
    headers.push(("authorization".to_string(), Some(authorization)));
    let req = IncomingRequest { method: "PUT".into(), path: "/bucket/key".into(), query: String::new(), headers };
    assert_eq!(AuthLayer::authenticate(&store, "us-east-1", true, &req), Ok(()));
    let mut other = CredentialStore::new();
    other.add(Credentials::new("tinystore".into(), "another-secret".into(), true));
    assert_eq!(AuthLayer::authenticate(&other, "us-east-1", true, &req), Err(403));
}
