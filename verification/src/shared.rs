//! Request and response types shared between the server and the web UI.

use vstd::prelude::*;
use crate::model::{BucketInfo, ObjectInfo};
use crate::time::Timestamp;

verus! {

/// Response for listing buckets.
pub struct ListBucketsResponse {
    pub buckets: Vec<BucketInfo>,
}

/// Response for listing objects.
pub struct ListObjectsResponse {
    pub objects: Vec<ObjectInfo>,
    pub is_truncated: bool,
    pub next_continuation_token: Option<String>,
}

/// Request to create a bucket.
pub struct CreateBucketRequest {
    pub name: String,
}

/// Storage statistics.
pub struct StorageStats {
    pub total_buckets: u64,
    pub total_objects: u64,
    pub total_size_bytes: u64,
}

/// Credential information.
pub struct CredentialInfo {
    pub id: String,
    pub access_key: String,
    pub is_admin: bool,
    pub created_at: Timestamp,
}

/// Request to create a new credential.
pub struct CreateCredentialRequest {
    pub access_key: String,
    pub secret_key: String,
    pub is_admin: bool,
}

} // verus!
