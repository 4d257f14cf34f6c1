//! The web UI's decisions: what its pages show after each load, action and form submission,
//! and how it formats an uptime.

use vstd::prelude::*;
use crate::text::{decimal, push_decimal};
use crate::shared::{CreateBucketRequest, CreateCredentialRequest};
use crate::time::opt_view;

verus! {

/// An uptime as days, hours, minutes and seconds, leaving out the leading units that are zero:
/// `Xd Xh Xm Xs`, `Xh Xm Xs`, `Xm Xs` or `Xs`.
pub open spec fn uptime_text(seconds: nat) -> Seq<char> {
    let days = seconds / 86400;
    let hours = (seconds % 86400) / 3600;
    let minutes = (seconds % 3600) / 60;
    let secs = seconds % 60;
    if days > 0 {
        decimal(days) + "d "@ + decimal(hours) + "h "@ + decimal(minutes) + "m "@ + decimal(secs) + "s"@
    } else if hours > 0 {
        decimal(hours) + "h "@ + decimal(minutes) + "m "@ + decimal(secs) + "s"@
    } else if minutes > 0 {
        decimal(minutes) + "m "@ + decimal(secs) + "s"@
    } else {
        decimal(secs) + "s"@
    }
}

/// Formats an uptime given in seconds.
pub fn format_uptime(seconds: u64) -> (s: String)
    ensures
        s@ == uptime_text(seconds as nat),
{
    let days = seconds / 86400;
    let hours = (seconds % 86400) / 3600;
    let minutes = (seconds % 3600) / 60;
    let secs = seconds % 60;
    let mut s = String::new();
    if days > 0 {
        push_decimal(&mut s, days);
        s.append("d ");
        push_decimal(&mut s, hours);
        s.append("h ");
        push_decimal(&mut s, minutes);
        s.append("m ");
        push_decimal(&mut s, secs);
        s.append("s");
    } else if hours > 0 {
        push_decimal(&mut s, hours);
        s.append("h ");
        push_decimal(&mut s, minutes);
        s.append("m ");
        push_decimal(&mut s, secs);
        s.append("s");
    } else if minutes > 0 {
        push_decimal(&mut s, minutes);
        s.append("m ");
        push_decimal(&mut s, secs);
        s.append("s");
    } else {
        push_decimal(&mut s, secs);
        s.append("s");
    }
    assert(s@ =~= uptime_text(seconds as nat));
    s
}


/// The message a page shows when an operation fails: `Failed to {what}: {reason}`.
pub open spec fn failure_text(what: Seq<char>, reason: Seq<char>) -> Seq<char> {
    "Failed to "@ + what + ": "@ + reason
}

fn failure_message(what: &str, reason: &str) -> (s: String)
    ensures
        s@ == failure_text(what@, reason@),
{
    let mut s = String::from_str("Failed to ");
    s.append(what);
    s.append(": ");
    s.append(reason);
    s
}

/// What a page that lists items (buckets, objects, credentials) holds: the items, the error
/// it shows, whether a load is under way, whether its form (create or upload) is open, and
/// what the form holds.
pub struct ListPage<T, F> {
    pub items: Vec<T>,
    pub error: Option<String>,
    pub loading: bool,
    pub form_open: bool,
    pub form: F,
}

/// What happens on a list page.
pub enum ListEvent<T, F> {
    /// The page is shown.
    Opened,
    /// The list request was answered.
    Loaded(Result<Vec<T>, String>),
    /// The form is opened (`true`) or closed.
    ShowForm(bool),
    /// The form's fields now hold this.
    Edit(F),
    /// The form is submitted.
    Submit,
    /// The create (or upload) request was answered.
    Sent(Result<(), String>),
    /// Delete was clicked for `name`; `confirmed` is the answer to the confirmation dialog.
    DeleteAsked { name: String, confirmed: bool },
    /// The delete request was answered.
    Deleted(Result<(), String>),
}

/// What a page asks to be done.
pub enum PageAction<C> {
    /// Nothing.
    Nothing,
    /// Request the page's list.
    Fetch,
    /// Send the create (or upload) request with this content.
    Send(C),
    /// Send the delete request for this name.
    Delete(String),
}

/// The words a list page's messages use: what it lists (`buckets`), and what creating and
/// deleting one is called (`create bucket`, `delete bucket`).
pub struct PageWords {
    pub items: String,
    pub create: String,
    pub delete: String,
}

/// The page about to reload: loading, with no error.
pub open spec fn reloading<T, F>(p: ListPage<T, F>, q: ListPage<T, F>) -> bool {
    &&& q.items@ == p.items@
    &&& q.error is None
    &&& q.loading
    &&& q.form_open == p.form_open
    &&& q.form == p.form
}

/// `q` is `p` showing the error `message` and otherwise unchanged.
pub open spec fn showing_error<T, F>(p: ListPage<T, F>, q: ListPage<T, F>, message: Seq<char>) -> bool {
    &&& q.items@ == p.items@
    &&& opt_view(q.error) == Some(message)
    &&& q.loading == p.loading
    &&& q.form_open == p.form_open
    &&& q.form == p.form
}

/// `q` is `p` with no error and otherwise unchanged.
pub open spec fn clearing_error<T, F>(p: ListPage<T, F>, q: ListPage<T, F>) -> bool {
    &&& q.items@ == p.items@
    &&& q.error is None
    &&& q.loading == p.loading
    &&& q.form_open == p.form_open
    &&& q.form == p.form
}

/// What a list page does on every event but a form submission, which each page decides for
/// itself (`q` and `act` are the page and action after `event` on `p`; `words` are the
/// page's words; `is_blank` tells the page's empty form):
/// - shown: it reloads (loading, no error) and requests its list;
/// - list answered: it shows the items, or keeps them and shows `Failed to load {items}:
///   {reason}`; loading ends;
/// - form opened or closed, or edited: only the form changes;
/// - create answered: on success the form closes and is blanked and the page reloads and
///   requests its list; on failure it shows `Failed to {create}: {reason}`;
/// - delete clicked: only when the dialog was confirmed does it clear its error and send the
///   delete request for that name; otherwise nothing happens;
/// - delete answered: on success it reloads and requests its list; on failure it shows
///   `Failed to {delete}: {reason}`.
pub open spec fn list_step<T, F, C>(
    p: ListPage<T, F>,
    event: ListEvent<T, F>,
    words: (Seq<char>, Seq<char>, Seq<char>),
    is_blank: spec_fn(F) -> bool,
    q: ListPage<T, F>,
    act: PageAction<C>,
) -> bool {
    match event {
        ListEvent::Opened => reloading(p, q) && act is Fetch,
        ListEvent::Loaded(Ok(v)) => q.items@ == v@ && q.error == p.error && !q.loading
            && q.form_open == p.form_open && q.form == p.form && act is Nothing,
        ListEvent::Loaded(Err(e)) => q.items@ == p.items@
            && opt_view(q.error) == Some(failure_text("load "@ + words.0, e@)) && !q.loading
            && q.form_open == p.form_open && q.form == p.form && act is Nothing,
        ListEvent::ShowForm(b) => q.items@ == p.items@ && q.error == p.error
            && q.loading == p.loading && q.form_open == b && q.form == p.form && act is Nothing,
        ListEvent::Edit(f) => q.items@ == p.items@ && q.error == p.error
            && q.loading == p.loading && q.form_open == p.form_open && q.form == f && act is Nothing,
        ListEvent::Submit => q == p && act is Nothing,
        ListEvent::Sent(Ok(_)) => q.items@ == p.items@ && q.error is None && q.loading
            && !q.form_open && is_blank(q.form) && act is Fetch,
        ListEvent::Sent(Err(e)) => showing_error(p, q, failure_text(words.1, e@)) && act is Nothing,
        ListEvent::DeleteAsked { name, confirmed } => if confirmed {
            clearing_error(p, q) && (act matches PageAction::Delete(n) && n@ == name@)
        } else {
            q == p && act is Nothing
        },
        ListEvent::Deleted(Ok(_)) => reloading(p, q) && act is Fetch,
        ListEvent::Deleted(Err(e)) => showing_error(p, q, failure_text(words.2, e@)) && act is Nothing,
    }
}

impl<T, F> ListPage<T, F> {
    /// A page before it is shown: no items, no error, loading, its form closed and blank.
    pub fn new(blank: F) -> (p: ListPage<T, F>)
        ensures
            p.items@.len() == 0,
            p.error is None,
            p.loading,
            !p.form_open,
            p.form == blank,
    {
        ListPage { items: Vec::new(), error: None, loading: true, form_open: false, form: blank }
    }

    /// The page after `event` (other than a submission, which leaves it as it is), as
    /// `list_step` states it, with `blank` as its empty form.
    pub fn step<C>(self, event: ListEvent<T, F>, words: &PageWords, blank: F) -> (r: (ListPage<T, F>, PageAction<C>))
        ensures
            list_step(self, event, (words.items@, words.create@, words.delete@), |f: F| f == blank, r.0, r.1),
    {
        let ListPage { items, error, loading, form_open, form } = self;
        match event {
            ListEvent::Opened => (ListPage { items, error: None, loading: true, form_open, form }, PageAction::Fetch),
            ListEvent::Loaded(Ok(v)) => (ListPage { items: v, error, loading: false, form_open, form }, PageAction::Nothing),
            ListEvent::Loaded(Err(e)) => {
                let mut w = String::from_str("load ");
                w.append(words.items.as_str());
                let m = failure_message(w.as_str(), e.as_str());
                (ListPage { items, error: Some(m), loading: false, form_open, form }, PageAction::Nothing)
            },
            ListEvent::ShowForm(b) => (ListPage { items, error, loading, form_open: b, form }, PageAction::Nothing),
            ListEvent::Edit(f) => (ListPage { items, error, loading, form_open, form: f }, PageAction::Nothing),
            ListEvent::Submit => (ListPage { items, error, loading, form_open, form }, PageAction::Nothing),
            ListEvent::Sent(Ok(_)) => (
                ListPage { items, error: None, loading: true, form_open: false, form: blank },
                PageAction::Fetch,
            ),
            ListEvent::Sent(Err(e)) => {
                let m = failure_message(words.create.as_str(), e.as_str());
                (ListPage { items, error: Some(m), loading, form_open, form }, PageAction::Nothing)
            },
            ListEvent::DeleteAsked { name, confirmed } => {
                if confirmed {
                    (ListPage { items, error: None, loading, form_open, form }, PageAction::Delete(name))
                } else {
                    (ListPage { items, error, loading, form_open, form }, PageAction::Nothing)
                }
            },
            ListEvent::Deleted(Ok(_)) => (ListPage { items, error: None, loading: true, form_open, form }, PageAction::Fetch),
            ListEvent::Deleted(Err(e)) => {
                let m = failure_message(words.delete.as_str(), e.as_str());
                (ListPage { items, error: Some(m), loading, form_open, form }, PageAction::Nothing)
            },
        }
    }
}

/// The error the bucket form shows for a name, if any.
pub fn bucket_form_error(name: &str) -> (r: Option<String>)
    ensures
        name@.len() == 0 ==> opt_view(r) == Some("Bucket name cannot be empty"@),
        name@.len() > 0 ==> r is None,
{
    if name.unicode_len() == 0 {
        Some(String::from_str("Bucket name cannot be empty"))
    } else {
        None
    }
}

/// The error the credential form shows for an access key and secret key, if any.
pub fn credential_form_error(access_key: &str, secret_key: &str) -> (r: Option<String>)
    ensures
        (access_key@.len() == 0 || secret_key@.len() == 0)
            ==> opt_view(r) == Some("Access key and secret key cannot be empty"@),
        (access_key@.len() > 0 && secret_key@.len() > 0) ==> r is None,
{
    if access_key.unicode_len() == 0 || secret_key.unicode_len() == 0 {
        Some(String::from_str("Access key and secret key cannot be empty"))
    } else {
        None
    }
}

/// The error the login form shows for an access key and secret key, if any; without one the
/// keys are stored and the dashboard opens.
pub fn login_form_error(access_key: &str, secret_key: &str) -> (r: Option<String>)
    ensures
        (access_key@.len() == 0 || secret_key@.len() == 0)
            ==> opt_view(r) == Some("Please enter both access key and secret key"@),
        (access_key@.len() > 0 && secret_key@.len() > 0) ==> r is None,
{
    if access_key.unicode_len() == 0 || secret_key.unicode_len() == 0 {
        Some(String::from_str("Please enter both access key and secret key"))
    } else {
        None
    }
}

/// The Buckets page's words.
pub fn bucket_words() -> (w: PageWords)
    ensures
        w.items@ == "buckets"@,
        w.create@ == "create bucket"@,
        w.delete@ == "delete bucket"@,
{
    PageWords {
        items: String::from_str("buckets"),
        create: String::from_str("create bucket"),
        delete: String::from_str("delete bucket"),
    }
}

/// The Buckets page, whose form holds the new bucket's name. A submitted form with an empty
/// name shows `Bucket name cannot be empty` and sends nothing; otherwise the page clears its
/// error and sends the create request with that name. Every other event goes by `list_step`
/// with the empty name as the blank form.
pub fn buckets_step<T>(page: ListPage<T, String>, event: ListEvent<T, String>) -> (r: (
    ListPage<T, String>,
    PageAction<CreateBucketRequest>,
))
    ensures
        event is Submit ==> (if page.form@.len() == 0 {
            showing_error(page, r.0, "Bucket name cannot be empty"@) && r.1 is Nothing
        } else {
            clearing_error(page, r.0) && (r.1 matches PageAction::Send(req) && req.name@ == page.form@)
        }),
        !(event is Submit) ==> list_step(page, event, ("buckets"@, "create bucket"@, "delete bucket"@),
            |f: String| f@.len() == 0, r.0, r.1),
{
    match event {
        ListEvent::Submit => match bucket_form_error(page.form.as_str()) {
            Some(m) => {
                let ListPage { items, error: _, loading, form_open, form } = page;
                (ListPage { items, error: Some(m), loading, form_open, form }, PageAction::Nothing)
            },
            None => {
                let name = page.form.clone();
                let ListPage { items, error: _, loading, form_open, form } = page;
                (ListPage { items, error: None, loading, form_open, form }, PageAction::Send(CreateBucketRequest { name }))
            },
        },
        ev => page.step(ev, &bucket_words(), String::new()),
    }
}

/// The fields of the credential form.
pub struct CredentialForm {
    pub access_key: String,
    pub secret_key: String,
    pub is_admin: bool,
}

/// The empty credential form: no keys, not an administrator.
pub open spec fn blank_credential_form(f: CredentialForm) -> bool {
    f.access_key@.len() == 0 && f.secret_key@.len() == 0 && !f.is_admin
}

/// The Settings page's words.
pub fn credential_words() -> (w: PageWords)
    ensures
        w.items@ == "credentials"@,
        w.create@ == "create credential"@,
        w.delete@ == "delete credential"@,
{
    PageWords {
        items: String::from_str("credentials"),
        create: String::from_str("create credential"),
        delete: String::from_str("delete credential"),
    }
}

/// The Settings page, whose form holds a new credential. A submitted form with an empty access
/// or secret key shows `Access key and secret key cannot be empty` and sends nothing; otherwise
/// the page clears its error and sends the create request with the form's keys and admin flag.
/// Every other event goes by `list_step`, the blank form having empty keys and no admin flag.
pub fn settings_step<T>(page: ListPage<T, CredentialForm>, event: ListEvent<T, CredentialForm>) -> (r: (
    ListPage<T, CredentialForm>,
    PageAction<CreateCredentialRequest>,
))
    ensures
        event is Submit ==> (if page.form.access_key@.len() == 0 || page.form.secret_key@.len() == 0 {
            showing_error(page, r.0, "Access key and secret key cannot be empty"@) && r.1 is Nothing
        } else {
            clearing_error(page, r.0) && (r.1 matches PageAction::Send(req) && req.access_key@ == page.form.access_key@
                && req.secret_key@ == page.form.secret_key@ && req.is_admin == page.form.is_admin)
        }),
        !(event is Submit) ==> list_step(page, event, ("credentials"@, "create credential"@, "delete credential"@),
            |f: CredentialForm| blank_credential_form(f), r.0, r.1),
{
    match event {
        ListEvent::Submit => match credential_form_error(page.form.access_key.as_str(), page.form.secret_key.as_str()) {
            Some(m) => {
                let ListPage { items, error: _, loading, form_open, form } = page;
                (ListPage { items, error: Some(m), loading, form_open, form }, PageAction::Nothing)
            },
            None => {
                let req = CreateCredentialRequest {
                    access_key: page.form.access_key.clone(),
                    secret_key: page.form.secret_key.clone(),
                    is_admin: page.form.is_admin,
                };
                let ListPage { items, error: _, loading, form_open, form } = page;
                (ListPage { items, error: None, loading, form_open, form }, PageAction::Send(req))
            },
        },
        ev => {
            let blank = CredentialForm { access_key: String::new(), secret_key: String::new(), is_admin: false };
            page.step(ev, &credential_words(), blank)
        },
    }
}

/// A file chosen for upload: its name and bytes.
pub struct Upload {
    pub file_name: String,
    pub data: Vec<u8>,
}

/// The Objects page's words.
pub fn object_words() -> (w: PageWords)
    ensures
        w.items@ == "objects"@,
        w.create@ == "upload object"@,
        w.delete@ == "delete object"@,
{
    PageWords {
        items: String::from_str("objects"),
        create: String::from_str("upload object"),
        delete: String::from_str("delete object"),
    }
}

/// The Objects page of a bucket, whose form holds the file chosen for upload, if any. A
/// submission without a chosen file does nothing; with one, the page clears its error and
/// sends the upload of that file's name and bytes. Every other event goes by `list_step`,
/// the blank form holding no file.
pub fn objects_step<T>(page: ListPage<T, Option<Upload>>, event: ListEvent<T, Option<Upload>>) -> (r: (
    ListPage<T, Option<Upload>>,
    PageAction<Upload>,
))
    ensures
        event is Submit ==> (match page.form {
            None => r.0 == page && r.1 is Nothing,
            Some(u) => clearing_error(page, r.0) && (r.1 matches PageAction::Send(up)
                && up.file_name@ == u.file_name@ && up.data@ == u.data@),
        }),
        !(event is Submit) ==> list_step(page, event, ("objects"@, "upload object"@, "delete object"@),
            |f: Option<Upload>| f is None, r.0, r.1),
{
    match event {
        ListEvent::Submit => {
            let up = match &page.form {
                Some(u) => Some(Upload {
                    file_name: u.file_name.clone(),
                    data: crate::backend::copy_bytes(u.data.as_slice(), 0, u.data.len()),
                }),
                None => None,
            };
            match up {
                None => (page, PageAction::Nothing),
                Some(up) => {
                    proof {
                        assert(page.form->0.data@.subrange(0, page.form->0.data@.len() as int) =~= page.form->0.data@);
                    }
                    let ListPage { items, error: _, loading, form_open, form } = page;
                    (ListPage { items, error: None, loading, form_open, form }, PageAction::Send(up))
                },
            }
        },
        ev => page.step(ev, &object_words(), None),
    }
}

/// What the dashboard holds: the server status and storage statistics once fetched, the
/// error it shows and whether it is loading.
pub struct DashboardPage<S, St> {
    pub status: Option<S>,
    pub stats: Option<St>,
    pub error: Option<String>,
    pub loading: bool,
}

/// What happens on the dashboard.
pub enum DashboardEvent<S, St> {
    /// The page is shown.
    Opened,
    /// The status request was answered.
    StatusLoaded(Result<S, String>),
    /// The statistics request was answered.
    StatsLoaded(Result<St, String>),
}

/// What the dashboard asks to be done.
pub enum DashboardAction {
    Nothing,
    /// Request the server status (`GET /api/v1/status`).
    FetchStatus,
    /// Request the storage statistics (`GET /api/v1/stats`).
    FetchStats,
}

impl<S, St> DashboardPage<S, St> {
    /// A dashboard before it is shown: nothing fetched, no error, loading.
    pub fn new() -> (p: DashboardPage<S, St>)
        ensures
            p.status is None,
            p.stats is None,
            p.error is None,
            p.loading,
    {
        DashboardPage { status: None, stats: None, error: None, loading: true }
    }

    /// The dashboard requests the status when shown (loading, no error), then the statistics
    /// once the status is answered, and stops loading once the statistics are answered; a
    /// failed request shows `Failed to fetch server status: {reason}` or `Failed to fetch
    /// storage stats: {reason}`, what was fetched before staying.
    pub fn step(self, event: DashboardEvent<S, St>) -> (r: (DashboardPage<S, St>, DashboardAction))
        ensures
            match event {
                DashboardEvent::Opened => r.0.status == self.status && r.0.stats == self.stats
                    && r.0.error is None && r.0.loading && r.1 is FetchStatus,
                DashboardEvent::StatusLoaded(Ok(s)) => r.0.status == Some(s) && r.0.stats == self.stats
                    && r.0.error == self.error && r.0.loading == self.loading && r.1 is FetchStats,
                DashboardEvent::StatusLoaded(Err(e)) => r.0.status == self.status && r.0.stats == self.stats
                    && opt_view(r.0.error) == Some(failure_text("fetch server status"@, e@))
                    && r.0.loading == self.loading && r.1 is FetchStats,
                DashboardEvent::StatsLoaded(Ok(st)) => r.0.status == self.status && r.0.stats == Some(st)
                    && r.0.error == self.error && !r.0.loading && r.1 is Nothing,
                DashboardEvent::StatsLoaded(Err(e)) => r.0.status == self.status && r.0.stats == self.stats
                    && opt_view(r.0.error) == Some(failure_text("fetch storage stats"@, e@))
                    && !r.0.loading && r.1 is Nothing,
            },
    {
        let DashboardPage { status, stats, error, loading } = self;
        match event {
            DashboardEvent::Opened => (DashboardPage { status, stats, error: None, loading: true }, DashboardAction::FetchStatus),
            DashboardEvent::StatusLoaded(Ok(s)) => (DashboardPage { status: Some(s), stats, error, loading }, DashboardAction::FetchStats),
            DashboardEvent::StatusLoaded(Err(e)) => {
                let m = failure_message("fetch server status", e.as_str());
                (DashboardPage { status, stats, error: Some(m), loading }, DashboardAction::FetchStats)
            },
            DashboardEvent::StatsLoaded(Ok(st)) => (DashboardPage { status, stats: Some(st), error, loading: false }, DashboardAction::Nothing),
            DashboardEvent::StatsLoaded(Err(e)) => {
                let m = failure_message("fetch storage stats", e.as_str());
                (DashboardPage { status, stats, error: Some(m), loading: false }, DashboardAction::Nothing)
            },
        }
    }
}

/// What the login page asks to be done.
pub enum LoginAction {
    Nothing,
    /// Store the keys in the browser's local storage (as `tinystore_access_key` and
    /// `tinystore_secret_key`) and open the dashboard (`/ui`).
    StoreAndOpen { access_key: String, secret_key: String },
}

/// The login form submitted with `access_key` and `secret_key`: with either empty it shows
/// `Please enter both access key and secret key` and does nothing else; otherwise it keeps its
/// error and stores both keys and opens the dashboard.
pub fn login_step(error: Option<String>, access_key: String, secret_key: String) -> (r: (Option<String>, LoginAction))
    ensures
        (access_key@.len() == 0 || secret_key@.len() == 0) ==> opt_view(r.0) == Some("Please enter both access key and secret key"@)
            && r.1 is Nothing,
        (access_key@.len() > 0 && secret_key@.len() > 0) ==> r.0 == error
            && (r.1 matches LoginAction::StoreAndOpen { access_key: a, secret_key: s } && a@ == access_key@ && s@ == secret_key@),
{
    match login_form_error(access_key.as_str(), secret_key.as_str()) {
        Some(m) => (Some(m), LoginAction::Nothing),
        None => (error, LoginAction::StoreAndOpen { access_key, secret_key }),
    }
}

} // verus!
