//! Authentication errors, credentials and the request check.

use vstd::prelude::*;
use crate::keyed::{has_key, keyed_map, keys_unique, lemma_keyed_absent, lemma_keyed_lookup, lemma_keyed_push, lemma_keyed_remove, lemma_keyed_update};
use crate::text::{find_from, chars_of, string_from_chars, slice_range};

verus! {

/// Authentication errors.
#[derive(Debug, Clone)]
pub enum AuthError {
    MissingAuthorizationHeader,
    InvalidAuthorizationHeader(String),
    MissingCredential,
    InvalidCredentialFormat(String),
    UnknownAccessKey(String),
    SignatureVerificationFailed,
    InvalidDateFormat(String),
    InvalidHmacKey(String),
    InvalidTimestamp,
    MissingRequiredHeader(String),
    InternalError(String),
}

/// Result of authentication operations.
pub type AuthResult<T> = Result<T, AuthError>;

/// An authentication error with its strings as character sequences.
pub enum AuthErrorView {
    MissingAuthorizationHeader,
    InvalidAuthorizationHeader(Seq<char>),
    MissingCredential,
    InvalidCredentialFormat(Seq<char>),
    UnknownAccessKey(Seq<char>),
    SignatureVerificationFailed,
    InvalidDateFormat(Seq<char>),
    InvalidHmacKey(Seq<char>),
    InvalidTimestamp,
    MissingRequiredHeader(Seq<char>),
    InternalError(Seq<char>),
}

impl View for AuthError {
    type V = AuthErrorView;

    open spec fn view(&self) -> AuthErrorView {
        match self {
            AuthError::MissingAuthorizationHeader => AuthErrorView::MissingAuthorizationHeader,
            AuthError::InvalidAuthorizationHeader(s) => AuthErrorView::InvalidAuthorizationHeader(s@),
            AuthError::MissingCredential => AuthErrorView::MissingCredential,
            AuthError::InvalidCredentialFormat(s) => AuthErrorView::InvalidCredentialFormat(s@),
            AuthError::UnknownAccessKey(s) => AuthErrorView::UnknownAccessKey(s@),
            AuthError::SignatureVerificationFailed => AuthErrorView::SignatureVerificationFailed,
            AuthError::InvalidDateFormat(s) => AuthErrorView::InvalidDateFormat(s@),
            AuthError::InvalidHmacKey(s) => AuthErrorView::InvalidHmacKey(s@),
            AuthError::InvalidTimestamp => AuthErrorView::InvalidTimestamp,
            AuthError::MissingRequiredHeader(s) => AuthErrorView::MissingRequiredHeader(s@),
            AuthError::InternalError(s) => AuthErrorView::InternalError(s@),
        }
    }
}

/// The HTTP status of each authentication error.
pub open spec fn auth_status(e: AuthErrorView) -> u16 {
    match e {
        AuthErrorView::MissingAuthorizationHeader => 403,
        AuthErrorView::InvalidAuthorizationHeader(_) => 400,
        AuthErrorView::MissingCredential => 400,
        AuthErrorView::InvalidCredentialFormat(_) => 400,
        AuthErrorView::UnknownAccessKey(_) => 403,
        AuthErrorView::SignatureVerificationFailed => 403,
        AuthErrorView::InvalidDateFormat(_) => 400,
        AuthErrorView::InvalidHmacKey(_) => 500,
        AuthErrorView::InvalidTimestamp => 403,
        AuthErrorView::MissingRequiredHeader(_) => 400,
        AuthErrorView::InternalError(_) => 500,
    }
}

/// The S3 error code of each authentication error.
pub open spec fn auth_s3_code(e: AuthErrorView) -> Seq<char> {
    match e {
        AuthErrorView::MissingAuthorizationHeader => "AccessDenied"@,
        AuthErrorView::InvalidAuthorizationHeader(_) => "InvalidArgument"@,
        AuthErrorView::MissingCredential => "InvalidArgument"@,
        AuthErrorView::InvalidCredentialFormat(_) => "InvalidArgument"@,
        AuthErrorView::UnknownAccessKey(_) => "InvalidAccessKeyId"@,
        AuthErrorView::SignatureVerificationFailed => "SignatureDoesNotMatch"@,
        AuthErrorView::InvalidDateFormat(_) => "InvalidArgument"@,
        AuthErrorView::InvalidHmacKey(_) => "InternalError"@,
        AuthErrorView::InvalidTimestamp => "RequestTimeTooSkewed"@,
        AuthErrorView::MissingRequiredHeader(_) => "InvalidArgument"@,
        AuthErrorView::InternalError(_) => "InternalError"@,
    }
}

/// The human-readable message of each authentication error.
pub open spec fn auth_message(e: AuthErrorView) -> Seq<char> {
    match e {
        AuthErrorView::MissingAuthorizationHeader => "Missing authorization header"@,
        AuthErrorView::InvalidAuthorizationHeader(s) => "Invalid authorization header: "@ + s,
        AuthErrorView::MissingCredential => "Missing credential in authorization header"@,
        AuthErrorView::InvalidCredentialFormat(s) => "Invalid credential format: "@ + s,
        AuthErrorView::UnknownAccessKey(s) => "Unknown access key: "@ + s,
        AuthErrorView::SignatureVerificationFailed => "Signature verification failed"@,
        AuthErrorView::InvalidDateFormat(s) => "Invalid date format: "@ + s,
        AuthErrorView::InvalidHmacKey(s) => "Invalid HMAC key: "@ + s,
        AuthErrorView::InvalidTimestamp => "Request timestamp too old or too far in future"@,
        AuthErrorView::MissingRequiredHeader(s) => "Missing required header: "@ + s,
        AuthErrorView::InternalError(s) => "Internal authentication error: "@ + s,
    }
}

/// The text `hmac`'s `InvalidLength` error displays, as `to_string` gives it.
/// Claimed: "Invalid Length" (the crate's `Display` impl writes exactly that).
#[verifier::external_body]
fn invalid_length_text(err: &hmac::digest::InvalidLength) -> (s: String)
    ensures
        s@ == "Invalid Length"@,
{
    err.to_string()
}

impl AuthError {
    /// The HTTP status code for this error.
    pub fn status_code(&self) -> (s: u16)
        ensures
            s == auth_status(self@),
    {
        match self {
            AuthError::MissingAuthorizationHeader => 403,
            AuthError::InvalidAuthorizationHeader(_) => 400,
            AuthError::MissingCredential => 400,
            AuthError::InvalidCredentialFormat(_) => 400,
            AuthError::UnknownAccessKey(_) => 403,
            AuthError::SignatureVerificationFailed => 403,
            AuthError::InvalidDateFormat(_) => 400,
            AuthError::InvalidHmacKey(_) => 500,
            AuthError::InvalidTimestamp => 403,
            AuthError::MissingRequiredHeader(_) => 400,
            AuthError::InternalError(_) => 500,
        }
    }

    /// The S3 error code for this error.
    pub fn s3_code(&self) -> (c: &'static str)
        ensures
            c@ == auth_s3_code(self@),
    {
        match self {
            AuthError::MissingAuthorizationHeader => "AccessDenied",
            AuthError::InvalidAuthorizationHeader(_) => "InvalidArgument",
            AuthError::MissingCredential => "InvalidArgument",
            AuthError::InvalidCredentialFormat(_) => "InvalidArgument",
            AuthError::UnknownAccessKey(_) => "InvalidAccessKeyId",
            AuthError::SignatureVerificationFailed => "SignatureDoesNotMatch",
            AuthError::InvalidDateFormat(_) => "InvalidArgument",
            AuthError::InvalidHmacKey(_) => "InternalError",
            AuthError::InvalidTimestamp => "RequestTimeTooSkewed",
            AuthError::MissingRequiredHeader(_) => "InvalidArgument",
            AuthError::InternalError(_) => "InternalError",
        }
    }

    /// The human-readable message for this error (what `Display` prints for it).
    pub fn message(&self) -> (m: String)
        ensures
            m@ == auth_message(self@),
    {
        match self {
            AuthError::MissingAuthorizationHeader => String::from_str("Missing authorization header"),
            AuthError::InvalidAuthorizationHeader(s) => crate::error::concat_str("Invalid authorization header: ", s.as_str()),
            AuthError::MissingCredential => String::from_str("Missing credential in authorization header"),
            AuthError::InvalidCredentialFormat(s) => crate::error::concat_str("Invalid credential format: ", s.as_str()),
            AuthError::UnknownAccessKey(s) => crate::error::concat_str("Unknown access key: ", s.as_str()),
            AuthError::SignatureVerificationFailed => String::from_str("Signature verification failed"),
            AuthError::InvalidDateFormat(s) => crate::error::concat_str("Invalid date format: ", s.as_str()),
            AuthError::InvalidHmacKey(s) => crate::error::concat_str("Invalid HMAC key: ", s.as_str()),
            AuthError::InvalidTimestamp => String::from_str("Request timestamp too old or too far in future"),
            AuthError::MissingRequiredHeader(s) => crate::error::concat_str("Missing required header: ", s.as_str()),
            AuthError::InternalError(s) => crate::error::concat_str("Internal authentication error: ", s.as_str()),
        }
    }

    /// The error for a key that HMAC rejects: `InvalidHmacKey` with the key error's text.
    pub fn from(err: hmac::digest::InvalidLength) -> (e: AuthError)
        ensures
            e@ == AuthErrorView::InvalidHmacKey("Invalid Length"@),
    {
        AuthError::InvalidHmacKey(invalid_length_text(&err))
    }
}

/// Credentials for authentication.
pub struct Credentials {
    pub access_key: String,
    pub secret_key: String,
    pub is_admin: bool,
}

impl Credentials {
    /// Credentials with the given keys and admin flag.
    pub fn new(access_key: String, secret_key: String, is_admin: bool) -> (c: Credentials)
        ensures
            c.access_key@ == access_key@,
            c.secret_key@ == secret_key@,
            c.is_admin == is_admin,
    {
        Credentials { access_key, secret_key, is_admin }
    }

    /// A copy of these credentials.
    pub fn duplicate(&self) -> (c: Credentials)
        ensures
            c.access_key@ == self.access_key@,
            c.secret_key@ == self.secret_key@,
            c.is_admin == self.is_admin,
    {
        Credentials { access_key: self.access_key.clone(), secret_key: self.secret_key.clone(), is_admin: self.is_admin }
    }
}

/// What the store holds for an access key.
pub struct CredentialView {
    pub secret_key: Seq<char>,
    pub is_admin: bool,
}

spec fn cred_key() -> spec_fn(Credentials) -> Seq<char> {
    |c: Credentials| c.access_key@
}

spec fn cred_val() -> spec_fn(Credentials) -> CredentialView {
    |c: Credentials| CredentialView { secret_key: c.secret_key@, is_admin: c.is_admin }
}

/// Store of credentials by access key.
pub struct CredentialStore {
    credentials: Vec<Credentials>,
}

impl View for CredentialStore {
    type V = Map<Seq<char>, CredentialView>;

    closed spec fn view(&self) -> Map<Seq<char>, CredentialView> {
        keyed_map(self.credentials@, cred_key(), cred_val())
    }
}

impl CredentialStore {
    #[verifier::type_invariant]
    spec fn keys_distinct(self) -> bool {
        keys_unique(self.credentials@, cred_key())
    }

    /// An empty store.
    pub fn new() -> (s: CredentialStore)
        ensures
            s@ == Map::<Seq<char>, CredentialView>::empty(),
    {
        let s = CredentialStore { credentials: Vec::new() };
        assert(s@ =~= Map::<Seq<char>, CredentialView>::empty());
        s
    }

    fn find(&self, access_key: &str) -> (r: Option<usize>)
        ensures
            match r {
                Some(i) => i < self.credentials@.len() && self.credentials@[i as int].access_key@ == access_key@,
                None => !has_key(self.credentials@, cred_key(), access_key@),
            },
    {
        let target = String::from_str(access_key);
        let mut i: usize = 0;
        while i < self.credentials.len()
            invariant
                i <= self.credentials@.len(),
                target@ == access_key@,
                forall|j: int| 0 <= j < i ==> (#[trigger] self.credentials@[j]).access_key@ != access_key@,
            decreases self.credentials.len() - i,
        {
            if self.credentials[i].access_key == target {
                return Some(i);
            }
            i = i + 1;
        }
        None
    }

    /// Adds credentials, replacing those with the same access key.
    pub fn add(&mut self, creds: Credentials)
        ensures
            final(self)@ == old(self)@.insert(creds.access_key@, CredentialView { secret_key: creds.secret_key@, is_admin: creds.is_admin }),
    {
        proof { use_type_invariant(&*self); }
        let ghost old_creds = self.credentials@;
        let pos = self.find(creds.access_key.as_str());
        let mut list: Vec<Credentials> = Vec::new();
        std::mem::swap(&mut list, &mut self.credentials);
        match pos {
            Some(i) => {
                proof { lemma_keyed_update(old_creds, cred_key(), cred_val(), i as int, creds); }
                list.set(i, creds);
            },
            None => {
                proof { lemma_keyed_push(old_creds, cred_key(), cred_val(), creds); }
                list.push(creds);
            },
        }
        self.credentials = list;
    }

    /// The credentials of `access_key`, if any.
    pub fn get(&self, access_key: &str) -> (r: Option<Credentials>)
        ensures
            r is Some <==> self@.dom().contains(access_key@),
            r matches Some(c) ==> c.access_key@ == access_key@
                && c.secret_key@ == self@[access_key@].secret_key
                && c.is_admin == self@[access_key@].is_admin,
    {
        proof { use_type_invariant(self); }
        match self.find(access_key) {
            Some(i) => {
                proof { lemma_keyed_lookup(self.credentials@, cred_key(), cred_val(), i as int); }
                Some(self.credentials[i].duplicate())
            },
            None => {
                proof { lemma_keyed_absent(self.credentials@, cred_key(), cred_val(), access_key@); }
                None
            },
        }
    }

    /// Removes the credentials of `access_key`; whether there were any.
    pub fn remove(&mut self, access_key: &str) -> (removed: bool)
        ensures
            removed == old(self)@.dom().contains(access_key@),
            final(self)@ == old(self)@.remove(access_key@),
    {
        proof { use_type_invariant(&*self); }
        let ghost old_creds = self.credentials@;
        match self.find(access_key) {
            Some(i) => {
                proof {
                    lemma_keyed_lookup(old_creds, cred_key(), cred_val(), i as int);
                    lemma_keyed_remove(old_creds, cred_key(), cred_val(), i as int);
                }
                let mut list: Vec<Credentials> = Vec::new();
                std::mem::swap(&mut list, &mut self.credentials);
                list.remove(i);
                self.credentials = list;
                true
            },
            None => {
                proof {
                    lemma_keyed_absent(old_creds, cred_key(), cred_val(), access_key@);
                    assert(self@ =~= old(self)@.remove(access_key@));
                }
                false
            },
        }
    }

    /// All access keys, each once.
    pub fn list_keys(&self) -> (keys: Vec<String>)
        ensures
            keys@.len() == self@.dom().len(),
            forall|i: int, j: int| 0 <= i < j < keys@.len() ==> (#[trigger] keys@[i])@ != (#[trigger] keys@[j])@,
            forall|k: Seq<char>| self@.dom().contains(k) <==> exists|i: int| 0 <= i < keys@.len() && (#[trigger] keys@[i])@ == k,
    {
        proof { use_type_invariant(self); }
        let mut keys: Vec<String> = Vec::new();
        let mut i: usize = 0;
        while i < self.credentials.len()
            invariant
                keys_unique(self.credentials@, cred_key()),
                i <= self.credentials@.len(),
                keys@.len() == i,
                forall|j: int| 0 <= j < i ==> (#[trigger] keys@[j])@ == self.credentials@[j].access_key@,
            decreases self.credentials.len() - i,
        {
            keys.push(self.credentials[i].access_key.clone());
            i = i + 1;
        }
        proof {
            assert forall|a: int, b: int| 0 <= a < b < keys@.len() implies (#[trigger] keys@[a])@ != (#[trigger] keys@[b])@ by {
                assert(cred_key()(self.credentials@[a]) != cred_key()(self.credentials@[b]));
            }
            assert forall|k: Seq<char>| self@.dom().contains(k) <==> exists|a: int| 0 <= a < keys@.len() && (#[trigger] keys@[a])@ == k by {
                if self@.dom().contains(k) {
                    let a = choose|a: int| 0 <= a < self.credentials@.len() && cred_key()(#[trigger] self.credentials@[a]) == k;
                    assert(keys@[a]@ == k);
                }
                if exists|a: int| 0 <= a < keys@.len() && (#[trigger] keys@[a])@ == k {
                    let a = choose|a: int| 0 <= a < keys@.len() && (#[trigger] keys@[a])@ == k;
                    lemma_keyed_lookup(self.credentials@, cred_key(), cred_val(), a);
                }
            }
            let ks = keys@.map_values(|s: String| s@);
            assert forall|a: int, b: int| 0 <= a < ks.len() && 0 <= b < ks.len() && a != b implies ks[a] != ks[b] by {
                if a < b {
                    assert(keys@[a]@ != keys@[b]@);
                } else {
                    assert(keys@[b]@ != keys@[a]@);
                }
            }
            assert(ks.no_duplicates());
            assert forall|k: Seq<char>| self@.dom().contains(k) <==> ks.to_set().contains(k) by {
                if self@.dom().contains(k) {
                    let a = choose|a: int| 0 <= a < keys@.len() && (#[trigger] keys@[a])@ == k;
                    assert(ks[a] == k);
                }
                if ks.to_set().contains(k) {
                    let a = choose|a: int| 0 <= a < ks.len() && ks[a] == k;
                    assert(keys@[a]@ == k);
                }
            }
            assert(self@.dom() =~= ks.to_set());
            ks.unique_seq_to_set();
        }
        keys
    }
}

impl Default for CredentialStore {
    fn default() -> (s: CredentialStore)
        ensures
            s@ == Map::<Seq<char>, CredentialView>::empty(),
    {
        CredentialStore::new()
    }
}

/// The text after the first `Credential=` of an authorization header, up to the next
/// `Credential=` (the second piece of splitting on that marker), then up to its first `/`.
pub open spec fn access_key_of(h: Seq<char>) -> Option<Seq<char>> {
    let marker = "Credential="@;
    match find_from(h, marker, 0) {
        None => None,
        Some(i) => {
            let start = i + marker.len();
            let piece = match find_from(h, marker, start) {
                Some(j) => h.subrange(start, j),
                None => h.subrange(start, h.len() as int),
            };
            match find_from(piece, "/"@, 0) {
                Some(k) => Some(piece.subrange(0, k)),
                None => Some(piece),
            }
        },
    }
}

/// The access key named in an authorization header.
pub fn extract_access_key(auth_header: &str) -> (r: Result<String, String>)
    ensures
        match access_key_of(auth_header@) {
            Some(k) => r matches Ok(s) && s@ == k,
            None => r matches Err(m) && m@ == "Missing Credential in authorization header"@,
        },
{
    let hc = chars_of(auth_header);
    let marker = chars_of("Credential=");
    proof { reveal_strlit("Credential="); reveal_strlit("/"); }
    let i = match crate::text::find(hc.as_slice(), marker.as_slice(), 0) {
        Some(i) => i,
        None => return Err(String::from_str("Missing Credential in authorization header")),
    };
    proof { crate::text::lemma_find_from_bounds(hc@, marker@, 0); }
    let start = i + marker.len();
    let end = match crate::text::find(hc.as_slice(), marker.as_slice(), start) {
        Some(j) => {
            proof { crate::text::lemma_find_from_bounds(hc@, marker@, start as int); }
            j
        },
        None => hc.len(),
    };
    let piece = slice_range(hc.as_slice(), start, end);
    let slash: Vec<char> = vec!['/'];
    assert(slash@ =~= "/"@);
    let key_end = match crate::text::find(piece, slash.as_slice(), 0) {
        Some(k) => {
            proof { crate::text::lemma_find_from_bounds(piece@, slash@, 0); }
            k
        },
        None => piece.len(),
    };
    let key = string_from_chars(slice_range(piece, 0, key_end));
    proof {
        if key_end == piece.len() {
            assert(piece@.subrange(0, key_end as int) =~= piece@);
        }
    }
    Ok(key)
}

/// An incoming request as the authentication check sees it.
pub struct IncomingRequest {
    /// The HTTP method.
    pub method: String,
    /// The URI path.
    pub path: String,
    /// The raw query string (empty when there is none).
    pub query: String,
    /// The headers in order, names in lower case; the value is `None` where it is
    /// not visible ASCII text.
    pub headers: Vec<(String, Option<String>)>,
}

/// The first header named `name`: `None` when there is none, `Some(None)` when its value is
/// not text.
pub open spec fn first_header(headers: Seq<(String, Option<String>)>, name: Seq<char>) -> Option<Option<Seq<char>>>
    decreases headers.len(),
{
    if headers.len() == 0 {
        None
    } else if headers[0].0@ == name {
        Some(match headers[0].1 { Some(v) => Some(v@), None => None })
    } else {
        first_header(headers.drop_first(), name)
    }
}

/// The headers whose values are text, in order.
pub open spec fn text_headers(headers: Seq<(String, Option<String>)>) -> Seq<(String, String)>
    decreases headers.len(),
{
    if headers.len() == 0 {
        Seq::empty()
    } else {
        let init = text_headers(headers.drop_last());
        match headers.last().1 {
            Some(v) => init.push((headers.last().0, v)),
            None => init,
        }
    }
}

/// The decision on a request: `Ok` lets it through, `Err` carries the HTTP status it is refused with.
pub open spec fn auth_decision(
    store: Map<Seq<char>, CredentialView>,
    region: Seq<char>,
    enabled: bool,
    method: Seq<char>,
    path: Seq<char>,
    query: Seq<char>,
    headers: Seq<(String, Option<String>)>,
) -> Result<(), u16> {
    if !enabled {
        Ok(())
    } else {
        match first_header(headers, "authorization"@) {
            None => Err(401),
            Some(None) => Err(400),
            Some(Some(h)) => match access_key_of(h) {
                None => Err(400),
                Some(key) => if !store.dom().contains(key) {
                    Err(403)
                } else {
                    let payload = match first_header(headers, "x-amz-content-sha256"@) {
                        Some(Some(v)) => v,
                        _ => "UNSIGNED-PAYLOAD"@,
                    };
                    match crate::sigv4::verify_outcome(h, method, path, query, text_headers(headers), payload,
                        store[key].secret_key, region) {
                        Ok(true) => Ok(()),
                        Ok(false) => Err(403),
                        Err(e) => Err(auth_status(e)),
                    }
                },
            },
        }
    }
}

/// The first header named `name`.
pub fn find_header(headers: &Vec<(String, Option<String>)>, name: &str) -> (r: Option<Option<String>>)
    ensures
        match first_header(headers@, name@) {
            None => r is None,
            Some(None) => r matches Some(None),
            Some(Some(v)) => r matches Some(Some(s)) && s@ == v,
        },
{
    let target = String::from_str(name);
    let mut i: usize = 0;
    assert(headers@.subrange(0, headers@.len() as int) =~= headers@);
    while i < headers.len()
        invariant
            i <= headers@.len(),
            target@ == name@,
            first_header(headers@, name@) == first_header(headers@.subrange(i as int, headers@.len() as int), name@),
        decreases headers.len() - i,
    {
        let ghost rest = headers@.subrange(i as int, headers@.len() as int);
        assert(rest[0] == headers@[i as int]);
        assert(rest.drop_first() =~= headers@.subrange(i + 1, headers@.len() as int));
        if headers[i].0 == target {
            return match &headers[i].1 {
                Some(v) => Some(Some(v.clone())),
                None => Some(None),
            };
        }
        i = i + 1;
    }
    None
}

/// Authentication settings: the credentials, the region and whether checks are on.
pub struct AuthLayer {
    pub credential_store: CredentialStore,
    pub region: String,
    pub enabled: bool,
}

impl AuthLayer {
    /// A layer with the given store, region and switch.
    pub fn new(credential_store: CredentialStore, region: String, enabled: bool) -> (l: AuthLayer)
        ensures
            l.credential_store@ == credential_store@,
            l.region@ == region@,
            l.enabled == enabled,
    {
        AuthLayer { credential_store, region, enabled }
    }

    /// A layer for region `us-east-1`, with checks on.
    pub fn with_defaults(credential_store: CredentialStore) -> (l: AuthLayer)
        ensures
            l.credential_store@ == credential_store@,
            l.region@ == "us-east-1"@,
            l.enabled,
    {
        AuthLayer::new(credential_store, String::from_str("us-east-1"), true)
    }

    /// The headers whose values are text, by name (the map the signature check reads).
    pub fn headers_to_map(headers: &Vec<(String, Option<String>)>) -> (m: Vec<(String, String)>)
        ensures
            m@ == text_headers(headers@),
    {
        let mut m: Vec<(String, String)> = Vec::new();
        let mut i: usize = 0;
        while i < headers.len()
            invariant
                i <= headers@.len(),
                m@ == text_headers(headers@.subrange(0, i as int)),
            decreases headers.len() - i,
        {
            assert(headers@.subrange(0, i + 1).drop_last() =~= headers@.subrange(0, i as int));
            match &headers[i].1 {
                Some(v) => {
                    m.push((headers[i].0.clone(), v.clone()));
                    assert(m@ =~= text_headers(headers@.subrange(0, i + 1)));
                },
                None => {},
            }
            i = i + 1;
        }
        assert(headers@.subrange(0, headers@.len() as int) =~= headers@);
        m
    }

    /// Decides whether a request may proceed: with checks off every request does; otherwise
    /// a missing `Authorization` header is refused with 401, an unreadable one with 400, an
    /// unknown access key with 403, a failed signature check with 403 and an error of the
    /// check with that error's status.
    pub fn authenticate(
        credential_store: &CredentialStore,
        region: &str,
        enabled: bool,
        request: &IncomingRequest,
    ) -> (r: Result<(), u16>)
        ensures
            r == auth_decision(credential_store@, region@, enabled, request.method@, request.path@,
                request.query@, request.headers@),
    {
        if !enabled {
            return Ok(());
        }
        let auth_header = match find_header(&request.headers, "authorization") {
            None => return Err(401),
            Some(None) => return Err(400),
            Some(Some(h)) => h,
        };
        let access_key = match extract_access_key(auth_header.as_str()) {
            Ok(k) => k,
            Err(_) => return Err(400),
        };
        let credentials = match credential_store.get(access_key.as_str()) {
            Some(c) => c,
            None => return Err(403),
        };
        let payload_hash = match find_header(&request.headers, "x-amz-content-sha256") {
            Some(Some(v)) => v,
            _ => String::from_str("UNSIGNED-PAYLOAD"),
        };
        let header_map = AuthLayer::headers_to_map(&request.headers);
        match crate::sigv4::SignatureV4::verify_signature(
            auth_header.as_str(),
            request.method.as_str(),
            request.path.as_str(),
            request.query.as_str(),
            &header_map,
            payload_hash.as_str(),
            credentials.secret_key.as_str(),
            region,
        ) {
            Ok(true) => Ok(()),
            Ok(false) => Err(403),
            Err(e) => Err(e.status_code()),
        }
    }
}

impl Default for AuthLayer {
    fn default() -> (l: AuthLayer)
        ensures
            l.credential_store@ == Map::<Seq<char>, CredentialView>::empty(),
            l.region@ == "us-east-1"@,
            l.enabled,
    {
        AuthLayer::new(CredentialStore::new(), String::from_str("us-east-1"), true)
    }
}

/// Credentials that were added are found with their secret, until they are removed.
pub proof fn lemma_store_add_then_get(
    store: Map<Seq<char>, CredentialView>,
    access_key: Seq<char>,
    creds: CredentialView,
    other: Seq<char>,
)
    ensures
        store.insert(access_key, creds).dom().contains(access_key),
        store.insert(access_key, creds)[access_key] == creds,
        !store.insert(access_key, creds).remove(access_key).dom().contains(access_key),
        other != access_key ==> (store.insert(access_key, creds).dom().contains(other) == store.dom().contains(other)),
        other != access_key && store.dom().contains(other) ==> store.insert(access_key, creds)[other] == store[other],
{
}

/// With checks off every request passes; with checks on, a request without an
/// `Authorization` header is refused with 401.
pub proof fn lemma_decision_basics(
    store: Map<Seq<char>, CredentialView>,
    region: Seq<char>,
    method: Seq<char>,
    path: Seq<char>,
    query: Seq<char>,
    headers: Seq<(String, Option<String>)>,
)
    ensures
        auth_decision(store, region, false, method, path, query, headers) == Ok::<(), u16>(()),
        first_header(headers, "authorization"@) is None
            ==> auth_decision(store, region, true, method, path, query, headers) == Err::<(), u16>(401),
{
}


/// The access key that an `Authorization` header made by `authorization_text` names is the
/// key it was made with, provided that key holds no `/` and not the text `Credential=`.
proof fn lemma_access_key_of_authorization(
    access_key: Seq<char>,
    date: Seq<char>,
    region: Seq<char>,
    signed: Seq<char>,
    signature: Seq<char>,
)
    requires
        forall|i: int| 0 <= i < access_key.len() ==> #[trigger] access_key[i] != '/',
        find_from(access_key, "Credential="@, 0) is None,
    ensures
        access_key_of(crate::sigv4::authorization_text(access_key, date, region, signed, signature)) == Some(access_key),
{
    reveal_strlit("AWS4-HMAC-SHA256 ");
    reveal_strlit("Credential=");
    reveal_strlit("/");
    let h = crate::sigv4::authorization_text(access_key, date, region, signed, signature);
    let scheme = crate::sigv4::auth_scheme();
    let marker = "Credential="@;
    let slash = "/"@;
    let head = scheme + marker;
    let tail = slash + date + slash + region + "/s3/aws4_request"@ + ","@ + " SignedHeaders="@ + signed + ","@
        + " Signature="@ + signature;
    assert(h =~= head + access_key + tail);
    let k = access_key.len() as int;
    assert(head.len() == 28);
    assert(tail[0] == '/');
    assert forall|u: int| 0 <= u < 27 implies #[trigger] head[u] != '=' by {
        if u < 17 {
            assert(head[u] == scheme[u]);
        } else {
            assert(head[u] == marker[u - 17]);
        }
    }
    assert forall|u: int| 0 <= u < 11 implies #[trigger] marker[u] != '/' by {}
    // The first marker is the one after the scheme.
    assert(h.subrange(17, 28) =~= marker);
    assert forall|t: int| 0 <= t < 17 implies !#[trigger] crate::text::occurs_at(h, marker, t) by {
        if crate::text::occurs_at(h, marker, t) {
            assert(h.subrange(t, t + 11)[10] == h[t + 10]);
            assert(h[t + 10] == head[t + 10]);
        }
    }
    crate::text::lemma_find_from_at(h, marker, 0, 17);
    // The next marker, if any, lies past the `/` after the access key.
    crate::text::lemma_find_from_found(h, marker, 28);
    crate::text::lemma_find_from_bounds(h, marker, 28);
    let end = match find_from(h, marker, 28) {
        Some(j) => j,
        None => h.len() as int,
    };
    if let Some(j) = find_from(h, marker, 28) {
        if j <= 28 + k {
            if j + 11 <= 28 + k {
                assert(h.subrange(j, j + 11) =~= access_key.subrange(j - 28, j - 28 + 11));
                assert(crate::text::occurs_at(access_key, marker, j - 28));
                crate::text::lemma_find_from_some(access_key, marker, 0, j - 28);
            } else {
                let p = 28 + k;
                assert(h[p] == '/');
                assert(h.subrange(j, j + 11)[p - j] == h[p]);
            }
        }
    }
    assert(end > 28 + k);
    let piece = h.subrange(28, end);
    assert(piece.subrange(0, k) =~= access_key);
    assert(piece[k] == '/');
    assert(piece.subrange(k, k + 1) =~= slash);
    assert forall|t: int| 0 <= t < k implies !#[trigger] crate::text::occurs_at(piece, slash, t) by {
        if crate::text::occurs_at(piece, slash, t) {
            assert(piece.subrange(t, t + 1)[0] == piece[t]);
            assert(piece[t] == access_key[t]);
        }
    }
    crate::text::lemma_find_from_at(piece, slash, 0, k);
}

/// Of headers whose last one alone is named `name`, the first so named is the last.
proof fn lemma_first_header_last(headers: Seq<(String, Option<String>)>, name: Seq<char>)
    requires
        headers.len() > 0,
        forall|i: int| 0 <= i < headers.len() - 1 ==> (#[trigger] headers[i]).0@ != name,
        headers.last().0@ == name,
    ensures
        first_header(headers, name) == Some(match headers.last().1 {
            Some(v) => Some(v@),
            None => None::<Seq<char>>,
        }),
    decreases headers.len(),
{
    if headers.len() > 1 {
        let rest = headers.drop_first();
        assert forall|i: int| 0 <= i < rest.len() - 1 implies (#[trigger] rest[i]).0@ != name by {
            assert(rest[i] == headers[i + 1]);
        }
        lemma_first_header_last(rest, name);
    }
}

/// The text headers of the first `n` headers, where those carry the values of `signed`, are
/// the first `n` of `signed`.
proof fn lemma_text_headers_signed(headers: Seq<(String, Option<String>)>, signed: Seq<(String, String)>, n: int)
    requires
        0 <= n <= signed.len(),
        n <= headers.len(),
        forall|i: int| 0 <= i < signed.len() && i < headers.len()
            ==> (#[trigger] headers[i]).0 == signed[i].0 && headers[i].1 == Some(signed[i].1),
    ensures
        text_headers(headers.take(n)) == signed.take(n),
    decreases n,
{
    if n > 0 {
        lemma_text_headers_signed(headers, signed, n - 1);
        assert(headers.take(n).drop_last() =~= headers.take(n - 1));
        assert(headers.take(n).last() == headers[n - 1]);
        assert(signed.take(n) =~= signed.take(n - 1).push(signed[n - 1]));
    }
}

/// A request whose headers are the signed headers `signed` followed by an `Authorization`
/// header, which names a stored access key and carries the signature that
/// `calculate_signature` gives over `signed` with that key's secret, the request's method,
/// path, query, declared payload hash, `x-amz-date` and the region, is let through when checks
/// are on. (An access key holding the text `Credential=` is read back shorter from the header.)
pub proof fn lemma_signed_request_accepted(
    store: Map<Seq<char>, CredentialView>,
    region: Seq<char>,
    method: Seq<char>,
    path: Seq<char>,
    query: Seq<char>,
    signed: Seq<(String, String)>,
    headers: Seq<(String, Option<String>)>,
    access_key: Seq<char>,
    amz: Seq<char>,
    payload_hash: Seq<char>,
)
    requires
        store.dom().contains(access_key),
        headers.len() == signed.len() + 1,
        forall|i: int| 0 <= i < signed.len() ==> (#[trigger] headers[i]).0 == signed[i].0 && headers[i].1 == Some(signed[i].1),
        forall|i: int| 0 <= i < signed.len() ==> (#[trigger] signed[i]).0@ != "authorization"@,
        !crate::sigv4::lower_map(signed).dom().contains("authorization"@),
        headers.last().0@ == "authorization"@,
        headers.last().1 matches Some(v) && v@ == crate::sigv4::authorization_value(access_key, amz.subrange(0, 8), region,
            crate::keyed::sorted_seq_of(crate::sigv4::lower_map(signed).dom()),
            crate::sigv4::calculated_signature(store[access_key].secret_key, method, path, query, signed, payload_hash,
                amz, region)),
        payload_hash == (match first_header(headers, "x-amz-content-sha256"@) {
            Some(Some(v)) => v,
            _ => "UNSIGNED-PAYLOAD"@,
        }),
        find_from(access_key, "Credential="@, 0) is None,
        amz.len() >= 8,
        crate::sigv4::lower_map(signed).dom().contains("x-amz-date"@),
        crate::sigv4::lower_map(signed)["x-amz-date"@] == amz,
        forall|i: int| 0 <= i < access_key.len() ==> crate::sigv4::credential_char(#[trigger] access_key[i]),
        forall|i: int| 0 <= i < 8 ==> crate::sigv4::credential_char(#[trigger] amz[i]),
        forall|i: int| 0 <= i < region.len() ==> crate::sigv4::credential_char(#[trigger] region[i]),
        forall|n: Seq<char>, i: int| crate::sigv4::lower_map(signed).dom().contains(n) && 0 <= i < n.len()
            ==> crate::sigv4::header_name_char(#[trigger] n[i]),
    ensures
        auth_decision(store, region, true, method, path, query, headers) == Ok::<(), u16>(()),
{
    reveal_strlit("authorization");
    let auth_name = "authorization"@;
    let v = headers.last().1->0;
    let secret = store[access_key].secret_key;
    let names = crate::keyed::sorted_seq_of(crate::sigv4::lower_map(signed).dom());
    let date = amz.subrange(0, 8);
    let sig = crate::sigv4::calculated_signature(secret, method, path, query, signed, payload_hash, amz, region);
    // The `Authorization` header is the last one.
    assert forall|i: int| 0 <= i < headers.len() - 1 implies (#[trigger] headers[i]).0@ != auth_name by {
        assert(headers[i].0 == signed[i].0);
    }
    lemma_first_header_last(headers, auth_name);
    // It names the access key.
    assert forall|i: int| 0 <= i < access_key.len() implies #[trigger] access_key[i] != '/' by {
        assert(crate::sigv4::credential_char(access_key[i]));
    }
    lemma_access_key_of_authorization(access_key, date, region, crate::text::join_with(names, ";"@), sig);
    // The headers that authentication reads are the signed ones and the `Authorization` header.
    lemma_text_headers_signed(headers, signed, signed.len() as int);
    assert(headers.take(signed.len() as int) =~= headers.drop_last());
    assert(signed.take(signed.len() as int) =~= signed);
    let sent = text_headers(headers);
    assert(sent =~= signed.push((headers.last().0, v)));
    assert(sent.drop_last() =~= signed);
    assert(crate::text::ascii_lower_seq(auth_name) =~= auth_name);
    assert(crate::sigv4::lower_map(sent) == crate::sigv4::lower_map(signed).insert(auth_name, v@));
    assert forall|n: Seq<char>| #[trigger] crate::sigv4::lower_map(signed).dom().contains(n) implies
        crate::sigv4::lower_map(sent).dom().contains(n) && crate::sigv4::lower_map(sent)[n] == crate::sigv4::lower_map(signed)[n] by {
        assert(n != auth_name);
    }
    crate::sigv4::lemma_verify_accepts_signed_sent(access_key, secret, method, path, query, signed, sent, payload_hash,
        amz, region);
}

} // verus!
