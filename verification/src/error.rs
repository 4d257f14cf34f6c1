//! Storage errors and how they are reported to S3 clients.

use vstd::prelude::*;

verus! {

/// Errors of storage operations.
#[derive(Debug, Clone)]
pub enum StorageError {
    BucketAlreadyExists(String),
    BucketNotFound(String),
    BucketNotEmpty(String),
    InvalidBucketName(String),
    ObjectNotFound { bucket: String, key: String },
    InvalidObjectKey(String),
    IoError(String),
    SerializationError(String),
    InvalidRange(String),
    EntityTooLarge,
    InternalError(String),
    NotImplemented(String),
}

/// Result of storage operations.
pub type StorageResult<T> = Result<T, StorageError>;

/// A storage error with its strings as character sequences.
pub enum StorageErrorView {
    BucketAlreadyExists(Seq<char>),
    BucketNotFound(Seq<char>),
    BucketNotEmpty(Seq<char>),
    InvalidBucketName(Seq<char>),
    ObjectNotFound { bucket: Seq<char>, key: Seq<char> },
    InvalidObjectKey(Seq<char>),
    IoError(Seq<char>),
    SerializationError(Seq<char>),
    InvalidRange(Seq<char>),
    EntityTooLarge,
    InternalError(Seq<char>),
    NotImplemented(Seq<char>),
}

impl View for StorageError {
    type V = StorageErrorView;

    open spec fn view(&self) -> StorageErrorView {
        match self {
            StorageError::BucketAlreadyExists(s) => StorageErrorView::BucketAlreadyExists(s@),
            StorageError::BucketNotFound(s) => StorageErrorView::BucketNotFound(s@),
            StorageError::BucketNotEmpty(s) => StorageErrorView::BucketNotEmpty(s@),
            StorageError::InvalidBucketName(s) => StorageErrorView::InvalidBucketName(s@),
            StorageError::ObjectNotFound { bucket, key } => StorageErrorView::ObjectNotFound { bucket: bucket@, key: key@ },
            StorageError::InvalidObjectKey(s) => StorageErrorView::InvalidObjectKey(s@),
            StorageError::IoError(s) => StorageErrorView::IoError(s@),
            StorageError::SerializationError(s) => StorageErrorView::SerializationError(s@),
            StorageError::InvalidRange(s) => StorageErrorView::InvalidRange(s@),
            StorageError::EntityTooLarge => StorageErrorView::EntityTooLarge,
            StorageError::InternalError(s) => StorageErrorView::InternalError(s@),
            StorageError::NotImplemented(s) => StorageErrorView::NotImplemented(s@),
        }
    }
}

/// The error a result carries, if any.
pub open spec fn err_of<T>(r: StorageResult<T>) -> Option<StorageErrorView> {
    match r {
        Ok(_) => None,
        Err(e) => Some(e@),
    }
}

/// The S3 error code of each storage error.
pub open spec fn storage_s3_code(e: StorageError) -> Seq<char> {
    match e {
        StorageError::BucketAlreadyExists(_) => "BucketAlreadyExists"@,
        StorageError::BucketNotFound(_) => "NoSuchBucket"@,
        StorageError::BucketNotEmpty(_) => "BucketNotEmpty"@,
        StorageError::InvalidBucketName(_) => "InvalidBucketName"@,
        StorageError::ObjectNotFound { .. } => "NoSuchKey"@,
        StorageError::InvalidObjectKey(_) => "InvalidArgument"@,
        StorageError::IoError(_) => "InternalError"@,
        StorageError::SerializationError(_) => "InternalError"@,
        StorageError::InvalidRange(_) => "InvalidRange"@,
        StorageError::EntityTooLarge => "EntityTooLarge"@,
        StorageError::InternalError(_) => "InternalError"@,
        StorageError::NotImplemented(_) => "NotImplemented"@,
    }
}

/// The HTTP status of each storage error.
pub open spec fn storage_status(e: StorageError) -> u16 {
    match e {
        StorageError::BucketAlreadyExists(_) => 409,
        StorageError::BucketNotFound(_) => 404,
        StorageError::BucketNotEmpty(_) => 409,
        StorageError::InvalidBucketName(_) => 400,
        StorageError::ObjectNotFound { .. } => 404,
        StorageError::InvalidObjectKey(_) => 400,
        StorageError::IoError(_) => 500,
        StorageError::SerializationError(_) => 500,
        StorageError::InvalidRange(_) => 416,
        StorageError::EntityTooLarge => 400,
        StorageError::InternalError(_) => 500,
        StorageError::NotImplemented(_) => 501,
    }
}

/// The human-readable message of each storage error.
pub open spec fn storage_message(e: StorageError) -> Seq<char> {
    match e {
        StorageError::BucketAlreadyExists(b) => "Bucket already exists: "@ + b@,
        StorageError::BucketNotFound(b) => "Bucket not found: "@ + b@,
        StorageError::BucketNotEmpty(b) => "Bucket not empty: "@ + b@,
        StorageError::InvalidBucketName(b) => "Invalid bucket name: "@ + b@,
        StorageError::ObjectNotFound { bucket, key } => "Object not found: "@ + bucket@ + "/"@ + key@,
        StorageError::InvalidObjectKey(k) => "Invalid object key: "@ + k@,
        StorageError::IoError(m) => "IO error: "@ + m@,
        StorageError::SerializationError(m) => "Serialization error: "@ + m@,
        StorageError::InvalidRange(m) => "Invalid range: "@ + m@,
        StorageError::EntityTooLarge => "Entity too large"@,
        StorageError::InternalError(m) => "Internal error: "@ + m@,
        StorageError::NotImplemented(m) => "Not implemented: "@ + m@,
    }
}

/// `head` followed by `tail`.
pub fn concat_str(head: &str, tail: &str) -> (s: String)
    ensures
        s@ == head@ + tail@,
{
    let mut s = String::from_str(head);
    s.append(tail);
    s
}

impl StorageError {
    /// The S3 error code for this error.
    pub fn s3_code(&self) -> (c: &'static str)
        ensures
            c@ == storage_s3_code(*self),
    {
        match self {
            StorageError::BucketAlreadyExists(_) => "BucketAlreadyExists",
            StorageError::BucketNotFound(_) => "NoSuchBucket",
            StorageError::BucketNotEmpty(_) => "BucketNotEmpty",
            StorageError::InvalidBucketName(_) => "InvalidBucketName",
            StorageError::ObjectNotFound { .. } => "NoSuchKey",
            StorageError::InvalidObjectKey(_) => "InvalidArgument",
            StorageError::IoError(_) => "InternalError",
            StorageError::SerializationError(_) => "InternalError",
            StorageError::InvalidRange(_) => "InvalidRange",
            StorageError::EntityTooLarge => "EntityTooLarge",
            StorageError::InternalError(_) => "InternalError",
            StorageError::NotImplemented(_) => "NotImplemented",
        }
    }

    /// The HTTP status code for this error.
    pub fn status_code(&self) -> (s: u16)
        ensures
            s == storage_status(*self),
    {
        match self {
            StorageError::BucketAlreadyExists(_) => 409,
            StorageError::BucketNotFound(_) => 404,
            StorageError::BucketNotEmpty(_) => 409,
            StorageError::InvalidBucketName(_) => 400,
            StorageError::ObjectNotFound { .. } => 404,
            StorageError::InvalidObjectKey(_) => 400,
            StorageError::IoError(_) => 500,
            StorageError::SerializationError(_) => 500,
            StorageError::InvalidRange(_) => 416,
            StorageError::EntityTooLarge => 400,
            StorageError::InternalError(_) => 500,
            StorageError::NotImplemented(_) => 501,
        }
    }

    /// The human-readable message for this error (what `Display` prints for it).
    pub fn message(&self) -> (m: String)
        ensures
            m@ == storage_message(*self),
    {
        match self {
            StorageError::BucketAlreadyExists(b) => concat_str("Bucket already exists: ", b.as_str()),
            StorageError::BucketNotFound(b) => concat_str("Bucket not found: ", b.as_str()),
            StorageError::BucketNotEmpty(b) => concat_str("Bucket not empty: ", b.as_str()),
            StorageError::InvalidBucketName(b) => concat_str("Invalid bucket name: ", b.as_str()),
            StorageError::ObjectNotFound { bucket, key } => {
                let mut s = concat_str("Object not found: ", bucket.as_str());
                s.append("/");
                s.append(key.as_str());
                s
            },
            StorageError::InvalidObjectKey(k) => concat_str("Invalid object key: ", k.as_str()),
            StorageError::IoError(m) => concat_str("IO error: ", m.as_str()),
            StorageError::SerializationError(m) => concat_str("Serialization error: ", m.as_str()),
            StorageError::InvalidRange(m) => concat_str("Invalid range: ", m.as_str()),
            StorageError::EntityTooLarge => String::from_str("Entity too large"),
            StorageError::InternalError(m) => concat_str("Internal error: ", m.as_str()),
            StorageError::NotImplemented(m) => concat_str("Not implemented: ", m.as_str()),
        }
    }
}

} // verus!
