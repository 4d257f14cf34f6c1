//! The JSON API behind the web UI: response envelopes and what each endpoint answers.

use vstd::prelude::*;
use crate::auth::{CredentialStore, CredentialView, Credentials};
use crate::backend::{ListObjectsParams, ListObjectsResult};
use crate::digest::{hex_encode, md5_digest, md5_hex};
use crate::error::{err_of, storage_message, StorageError, StorageResult};
use crate::model::ObjectMetadata;
use crate::s3::{get_param, param, parse_usize};
use crate::text::parse_unsigned;
use crate::time::{opt_view, rfc3339_or_empty};
use crate::xml::rfc3339_view;

verus! {

/// The envelope of every JSON API response.
pub struct ApiResponse<T> {
    pub success: bool,
    pub data: Option<T>,
    pub error: Option<String>,
}

impl<T> ApiResponse<T> {
    /// A successful response carrying `data`.
    pub fn success(data: T) -> (r: ApiResponse<T>)
        ensures
            r.success,
            r.data == Some(data),
            r.error is None,
    {
        ApiResponse { success: true, data: Some(data), error: None }
    }

    /// A failed response carrying `message`.
    pub fn error(message: String) -> (r: ApiResponse<T>)
        ensures
            !r.success,
            r.data is None,
            r.error matches Some(m) && m@ == message@,
    {
        ApiResponse { success: false, data: None, error: Some(message) }
    }
}

/// Storage statistics as the API reports them.
pub struct StorageStats {
    pub total_buckets: u64,
    pub total_objects: u64,
    pub total_size_bytes: u64,
}

/// A bucket as the API lists it.
pub struct BucketInfo {
    pub name: String,
    pub created: String,
    pub object_count: u64,
}

/// A request to create a bucket.
pub struct CreateBucketRequest {
    pub name: String,
}

/// An object as the API lists it.
pub struct ObjectInfo {
    pub key: String,
    pub size: u64,
    pub last_modified: String,
    pub etag: String,
}

/// A credential as the API lists it.
pub struct CredentialInfo {
    pub id: String,
    pub access_key: String,
    pub description: String,
}

/// A request to create a credential.
pub struct CreateCredentialRequest {
    pub description: String,
}

/// The message of an error result, if any.
pub open spec fn message_of<T>(r: StorageResult<T>) -> Option<Seq<char>> {
    match r {
        Ok(_) => None,
        Err(e) => Some(storage_message(e)),
    }
}

/// `GET /stats`: the statistics, or the error's message.
pub fn get_stats(r: StorageResult<crate::backend::StorageStats>) -> (resp: ApiResponse<StorageStats>)
    ensures
        resp.success == r is Ok,
        r matches Ok(s) ==> resp.data matches Some(d) && d.total_buckets == s.total_buckets
            && d.total_objects == s.total_objects && d.total_size_bytes == s.total_size_bytes,
        r is Err ==> resp.data is None && opt_view(resp.error) == message_of(r),
        r is Ok ==> resp.error is None,
{
    match r {
        Ok(stats) => ApiResponse::success(StorageStats {
            total_buckets: stats.total_buckets,
            total_objects: stats.total_objects,
            total_size_bytes: stats.total_size_bytes,
        }),
        Err(e) => ApiResponse::error(e.message()),
    }
}

/// `GET /buckets`: each bucket with its creation time in RFC 3339 and an object count of 0,
/// or the error's message.
pub fn list_buckets(r: StorageResult<Vec<crate::model::BucketInfo>>) -> (resp: ApiResponse<Vec<BucketInfo>>)
    ensures
        resp.success == r is Ok,
        r matches Ok(bs) ==> resp.data matches Some(v) && v@.len() == bs@.len()
            && forall|i: int| 0 <= i < v@.len() ==> {
                &&& (#[trigger] v@[i]).name@ == bs@[i].name@
                &&& v@[i].created@ == rfc3339_view(bs@[i].creation_date)
                &&& v@[i].object_count == 0
            },
        r is Ok ==> resp.error is None,
        r is Err ==> resp.data is None && opt_view(resp.error) == message_of(r),
{
    match r {
        Ok(buckets) => {
            let mut v: Vec<BucketInfo> = Vec::new();
            let mut i: usize = 0;
            while i < buckets.len()
                invariant
                    i <= buckets@.len(),
                    v@.len() == i,
                    forall|j: int| 0 <= j < i ==> {
                        &&& (#[trigger] v@[j]).name@ == buckets@[j].name@
                        &&& v@[j].created@ == rfc3339_view(buckets@[j].creation_date)
                        &&& v@[j].object_count == 0
                    },
                decreases buckets.len() - i,
            {
                v.push(BucketInfo {
                    name: buckets[i].name.clone(),
                    created: rfc3339_or_empty(buckets[i].creation_date),
                    object_count: 0,
                });
                i = i + 1;
            }
            ApiResponse::success(v)
        },
        Err(e) => ApiResponse::error(e.message()),
    }
}

/// The status and envelope of an endpoint that answers 201 on success and 400 with the
/// error's message on failure (`POST /buckets`, `PUT .../objects/*`).
pub fn created_response(r: StorageResult<()>) -> (resp: (u16, ApiResponse<()>))
    ensures
        r is Ok ==> resp.0 == 201 && resp.1.success && resp.1.data is Some && resp.1.error is None,
        r is Err ==> resp.0 == 400 && !resp.1.success && resp.1.data is None && opt_view(resp.1.error) == message_of(r),
{
    match r {
        Ok(_) => (201, ApiResponse::success(())),
        Err(e) => (400, ApiResponse::error(e.message())),
    }
}

/// The status and envelope of an endpoint that answers 200 on success and 400 with the
/// error's message on failure (`DELETE /buckets/:name`, `DELETE .../objects/*`).
pub fn deleted_response(r: StorageResult<()>) -> (resp: (u16, ApiResponse<()>))
    ensures
        r is Ok ==> resp.0 == 200 && resp.1.success && resp.1.data is Some && resp.1.error is None,
        r is Err ==> resp.0 == 400 && !resp.1.success && resp.1.data is None && opt_view(resp.1.error) == message_of(r),
{
    match r {
        Ok(_) => (200, ApiResponse::success(())),
        Err(e) => (400, ApiResponse::error(e.message())),
    }
}

/// The listing parameters of `GET /buckets/:name/objects`: `prefix`, `delimiter`,
/// `max_keys` (ignored unless a number) and `continuation_token`.
pub fn list_objects_params(params: &Vec<(String, String)>) -> (p: ListObjectsParams)
    ensures
        opt_view(p.prefix) == param(params@, "prefix"@),
        opt_view(p.delimiter) == param(params@, "delimiter"@),
        p.max_keys == (match param(params@, "max_keys"@) {
            Some(v) => match parse_unsigned(v, usize::MAX as nat) {
                Some(n) => Some(n as usize),
                None => None::<usize>,
            },
            None => None::<usize>,
        }),
        opt_view(p.continuation_token) == param(params@, "continuation_token"@),
{
    let max_keys = match get_param(params, "max_keys") {
        Some(s) => parse_usize(s.as_str()),
        None => None,
    };
    ListObjectsParams {
        prefix: get_param(params, "prefix"),
        delimiter: get_param(params, "delimiter"),
        max_keys,
        continuation_token: get_param(params, "continuation_token"),
    }
}

/// `GET /buckets/:name/objects`: each listed object with its time in RFC 3339, or the
/// error's message.
pub fn list_objects(r: StorageResult<ListObjectsResult>) -> (resp: ApiResponse<Vec<ObjectInfo>>)
    ensures
        resp.success == r is Ok,
        r matches Ok(l) ==> resp.data matches Some(v) && v@.len() == l.objects@.len()
            && forall|i: int| 0 <= i < v@.len() ==> {
                &&& (#[trigger] v@[i]).key@ == l.objects@[i].key@
                &&& v@[i].size == l.objects@[i].size
                &&& v@[i].last_modified@ == rfc3339_view(l.objects@[i].last_modified)
                &&& v@[i].etag@ == l.objects@[i].etag@
            },
        r is Ok ==> resp.error is None,
        r is Err ==> resp.data is None && opt_view(resp.error) == message_of(r),
{
    match r {
        Ok(listing) => {
            let objs = &listing.objects;
            let mut v: Vec<ObjectInfo> = Vec::new();
            let mut i: usize = 0;
            while i < objs.len()
                invariant
                    i <= objs@.len(),
                    v@.len() == i,
                    forall|j: int| 0 <= j < i ==> {
                        &&& (#[trigger] v@[j]).key@ == objs@[j].key@
                        &&& v@[j].size == objs@[j].size
                        &&& v@[j].last_modified@ == rfc3339_view(objs@[j].last_modified)
                        &&& v@[j].etag@ == objs@[j].etag@
                    },
                decreases objs.len() - i,
            {
                v.push(ObjectInfo {
                    key: objs[i].key.clone(),
                    size: objs[i].size,
                    last_modified: rfc3339_or_empty(objs[i].last_modified),
                    etag: objs[i].etag.clone(),
                });
                i = i + 1;
            }
            ApiResponse::success(v)
        },
        Err(e) => ApiResponse::error(e.message()),
    }
}

/// The metadata of an object uploaded through the API: the body's length and unquoted hex MD5.
pub fn upload_metadata(body: &[u8]) -> (m: ObjectMetadata)
    ensures
        m.content_length == body@.len(),
        m.etag@ == hex_encode(md5_digest(body@)),
        m.content_type is None,
        m.metadata@.len() == 0,
{
    ObjectMetadata::new(body.len() as u64, md5_hex(body))
}

/// `GET /credentials`: each access key of the store (id and key alike) with an empty description.
pub fn list_credentials(store: &CredentialStore) -> (resp: (u16, ApiResponse<Vec<CredentialInfo>>))
    ensures
        resp.0 == 200,
        resp.1.success,
        resp.1.data matches Some(v) && {
            &&& v@.len() == store@.dom().len()
            &&& forall|i: int| 0 <= i < v@.len() ==> {
                &&& store@.dom().contains((#[trigger] v@[i]).access_key@)
                &&& v@[i].id@ == v@[i].access_key@
                &&& v@[i].description@.len() == 0
            }
            &&& forall|k: Seq<char>| store@.dom().contains(k) ==> exists|i: int| 0 <= i < v@.len() && (#[trigger] v@[i]).access_key@ == k
        },
{
    let keys = store.list_keys();
    let mut infos: Vec<CredentialInfo> = Vec::new();
    let mut i: usize = 0;
    while i < keys.len()
        invariant
            i <= keys@.len(),
            infos@.len() == i,
            forall|k: Seq<char>| store@.dom().contains(k) <==> exists|j: int| 0 <= j < keys@.len() && (#[trigger] keys@[j])@ == k,
            forall|j: int| 0 <= j < i ==> {
                &&& (#[trigger] infos@[j]).access_key@ == keys@[j]@
                &&& infos@[j].id@ == infos@[j].access_key@
                &&& infos@[j].description@.len() == 0
            },
        decreases keys.len() - i,
    {
        let ghost k = keys@[i as int]@;
        assert(store@.dom().contains(k));
        match store.get(keys[i].as_str()) {
            Some(cred) => {
                infos.push(CredentialInfo {
                    id: cred.access_key.clone(),
                    access_key: cred.access_key,
                    description: String::new(),
                });
            },
            None => {
                return (200, ApiResponse::success(infos));
            },
        }
        i = i + 1;
    }
    proof {
        assert forall|j: int| 0 <= j < infos@.len() implies store@.dom().contains((#[trigger] infos@[j]).access_key@) by {
            assert(keys@[j]@ == infos@[j].access_key@);
        }
        assert forall|k: Seq<char>| store@.dom().contains(k) implies exists|j: int| 0 <= j < infos@.len() && (#[trigger] infos@[j]).access_key@ == k by {
            let j = choose|j: int| 0 <= j < keys@.len() && (#[trigger] keys@[j])@ == k;
            assert(infos@[j].access_key@ == k);
        }
    }
    (200, ApiResponse::success(infos))
}

/// `uuid::Uuid::new_v4().simple().to_string()` from `uuid`: a fresh random version-4 UUID
/// written as 32 lower-case hex digits without hyphens. Which identifier comes back is chance
/// and is not stated; its form is: version digit `4` thirteenth, variant digit `8`, `9`, `a`
/// or `b` seventeenth (`new_v4` sets those bits; `Simple`'s `Display` writes lower-case hex).
#[verifier::external_body]
fn new_simple_uuid() -> (s: String)
    ensures
        crate::digest::simple_uuid_text(s@),
{
    uuid::Uuid::new_v4().simple().to_string()
}

/// `POST /credentials`: adds a non-admin credential with access key `AKIA` followed by a fresh
/// simple UUID and a fresh simple UUID as secret, and answers 201 with the new key and the
/// given description.
pub fn create_credential(store: &mut CredentialStore, req: CreateCredentialRequest) -> (resp: (u16, ApiResponse<CredentialInfo>))
    ensures
        resp.0 == 201,
        resp.1.success,
        resp.1.data matches Some(info) && {
            &&& info.access_key@.len() == 36
            &&& info.access_key@.subrange(0, 4) == "AKIA"@
            &&& crate::digest::simple_uuid_text(info.access_key@.subrange(4, 36))
            &&& info.id@ == info.access_key@
            &&& info.description@ == req.description@
            &&& final(store)@.dom() == old(store)@.dom().insert(info.access_key@)
            &&& !final(store)@[info.access_key@].is_admin
            &&& crate::digest::simple_uuid_text(final(store)@[info.access_key@].secret_key)
            &&& forall|k: Seq<char>| k != info.access_key@ && old(store)@.dom().contains(k) ==> final(store)@[k] == old(store)@[k]
        },
{
    proof { reveal_strlit("AKIA"); }
    let mut access_key = String::from_str("AKIA");
    let id = new_simple_uuid();
    access_key.append(id.as_str());
    let secret_key = new_simple_uuid();
    let cred = Credentials::new(access_key.clone(), secret_key, false);
    store.add(cred);
    assert(access_key@.subrange(0, 4) =~= "AKIA"@);
    assert(access_key@.subrange(4, 36) =~= id@);
    let info = CredentialInfo {
        id: access_key.clone(),
        access_key,
        description: req.description,
    };
    proof {
        assert(final(store)@.dom() =~= old(store)@.dom().insert(info.access_key@));
    }
    (201, ApiResponse::success(info))
}

/// `DELETE /credentials/:id`: removes the credential and answers 200, or 404 with
/// "Credential not found" when there is none.
pub fn delete_credential(store: &mut CredentialStore, id: &str) -> (resp: (u16, ApiResponse<()>))
    ensures
        final(store)@ == old(store)@.remove(id@),
        old(store)@.dom().contains(id@) ==> resp.0 == 200 && resp.1.success,
        !old(store)@.dom().contains(id@) ==> resp.0 == 404 && !resp.1.success
            && opt_view(resp.1.error) == Some("Credential not found"@),
{
    if store.remove(id) {
        (200, ApiResponse::success(()))
    } else {
        (404, ApiResponse::error(String::from_str("Credential not found")))
    }
}

} // verus!
