//! The web UI's page decisions.

use tinystore::shared::CreateCredentialRequest;
use tinystore::ui::{
    bucket_form_error, buckets_step, credential_form_error, login_form_error, login_step, objects_step, settings_step,
    CredentialForm, DashboardAction, DashboardEvent, DashboardPage, ListEvent, ListPage, LoginAction, PageAction, Upload,
};

#[test]
fn buckets_page_loads_creates_and_deletes() {
    let page: ListPage<String, String> = ListPage::new(String::new());
    let (page, act) = buckets_step(page, ListEvent::Opened);
    assert!(matches!(act, PageAction::Fetch));
    assert!(page.loading && page.error.is_none());
    let (page, act) = buckets_step(page, ListEvent::Loaded(Ok(vec!["photos".to_string()])));
    assert!(matches!(act, PageAction::Nothing));
    assert!(!page.loading);
    assert_eq!(page.items, vec!["photos".to_string()]);

    let (page, _) = buckets_step(page, ListEvent::ShowForm(true));
    let (page, act) = buckets_step(page, ListEvent::Submit);
    assert!(matches!(act, PageAction::Nothing));
    assert_eq!(page.error.as_deref(), Some("Bucket name cannot be empty"));
    let (page, _) = buckets_step(page, ListEvent::Edit("docs".to_string()));
    let (page, act) = buckets_step(page, ListEvent::Submit);
    match act {
        PageAction::Send(req) => assert_eq!(req.name, "docs"),
        _ => panic!("the create request is sent"),
    }
    assert_eq!(page.error, None);
    let (page, act) = buckets_step(page, ListEvent::Sent(Err("HTTP 400: Bad Request".to_string())));
    assert!(matches!(act, PageAction::Nothing));
    assert_eq!(page.error.as_deref(), Some("Failed to create bucket: HTTP 400: Bad Request"));
    assert!(page.form_open);
    let (page, act) = buckets_step(page, ListEvent::Sent(Ok(())));
    assert!(matches!(act, PageAction::Fetch));
    assert!(!page.form_open && page.form.is_empty() && page.loading && page.error.is_none());

    let (page, act) = buckets_step(page, ListEvent::DeleteAsked { name: "photos".to_string(), confirmed: false });
    assert!(matches!(act, PageAction::Nothing));
    let (page, act) = buckets_step(page, ListEvent::DeleteAsked { name: "photos".to_string(), confirmed: true });
    assert!(matches!(act, PageAction::Delete(ref n) if n == "photos"));
    let (page, act) = buckets_step(page, ListEvent::Deleted(Err("HTTP 409: Conflict".to_string())));
    assert!(matches!(act, PageAction::Nothing));
    assert_eq!(page.error.as_deref(), Some("Failed to delete bucket: HTTP 409: Conflict"));
    let (page, act) = buckets_step(page, ListEvent::Loaded(Err("offline".to_string())));
    assert!(matches!(act, PageAction::Nothing));
    assert_eq!(page.error.as_deref(), Some("Failed to load buckets: offline"));
}

#[test]
fn settings_page_sends_the_form() {
    let blank = CredentialForm { access_key: String::new(), secret_key: String::new(), is_admin: false };
    let page: ListPage<String, CredentialForm> = ListPage::new(blank);
    let form = CredentialForm { access_key: "ak".into(), secret_key: String::new(), is_admin: true };
    let (page, _) = settings_step(page, ListEvent::Edit(form));
    let (page, act) = settings_step(page, ListEvent::Submit);
    assert!(matches!(act, PageAction::Nothing));
    assert_eq!(page.error.as_deref(), Some("Access key and secret key cannot be empty"));
    let form = CredentialForm { access_key: "ak".into(), secret_key: "sk".into(), is_admin: true };
    let (page, _) = settings_step(page, ListEvent::Edit(form));
    let (page, act) = settings_step(page, ListEvent::Submit);
    match act {
        PageAction::Send(CreateCredentialRequest { access_key, secret_key, is_admin }) => {
            assert_eq!((access_key.as_str(), secret_key.as_str(), is_admin), ("ak", "sk", true))
        }
        _ => panic!("the create request is sent"),
    }
    let (page, act) = settings_step(page, ListEvent::Sent(Ok(())));
    assert!(matches!(act, PageAction::Fetch));
    assert!(page.form.access_key.is_empty() && page.form.secret_key.is_empty() && !page.form.is_admin);
}

#[test]
fn objects_page_uploads_the_chosen_file() {
    let page: ListPage<String, Option<Upload>> = ListPage::new(None);
    let (page, act) = objects_step(page, ListEvent::Submit);
    assert!(matches!(act, PageAction::Nothing));
    let (page, _) = objects_step(page, ListEvent::Edit(Some(Upload { file_name: "a.txt".into(), data: vec![1, 2, 3] })));
    let (page, act) = objects_step(page, ListEvent::Submit);
    match act {
        PageAction::Send(up) => {
            assert_eq!(up.file_name, "a.txt");
            assert_eq!(up.data, vec![1, 2, 3]);
        }
        _ => panic!("the upload is sent"),
    }
    let (page, act) = objects_step(page, ListEvent::Sent(Err("HTTP 404: Not Found".to_string())));
    assert!(matches!(act, PageAction::Nothing));
    assert_eq!(page.error.as_deref(), Some("Failed to upload object: HTTP 404: Not Found"));
    let (page, act) = objects_step(page, ListEvent::Sent(Ok(())));
    assert!(matches!(act, PageAction::Fetch));
    assert!(page.form.is_none());
}

#[test]
fn dashboard_fetches_status_then_stats() {
    let page: DashboardPage<u64, u64> = DashboardPage::new();
    let (page, act) = page.step(DashboardEvent::Opened);
    assert!(matches!(act, DashboardAction::FetchStatus));
    assert!(page.loading);
    let (page, act) = page.step(DashboardEvent::StatusLoaded(Err("down".to_string())));
    assert!(matches!(act, DashboardAction::FetchStats));
    assert!(page.loading);
    assert_eq!(page.error.as_deref(), Some("Failed to fetch server status: down"));
    let (page, act) = page.step(DashboardEvent::StatsLoaded(Ok(7)));
    assert!(matches!(act, DashboardAction::Nothing));
    assert!(!page.loading);
    assert_eq!(page.stats, Some(7));
    let (page, _) = page.step(DashboardEvent::StatsLoaded(Err("slow".to_string())));
    assert_eq!(page.error.as_deref(), Some("Failed to fetch storage stats: slow"));
}

#[test]
fn login_stores_keys_only_when_both_are_given() {
    let (error, act) = login_step(None, "".into(), "secret".into());
    assert_eq!(error.as_deref(), Some("Please enter both access key and secret key"));
    assert!(matches!(act, LoginAction::Nothing));
    let (error, act) = login_step(None, "tinystore".into(), "tinystore123".into());
    assert_eq!(error, None);
    match act {
        LoginAction::StoreAndOpen { access_key, secret_key } => {
            assert_eq!((access_key.as_str(), secret_key.as_str()), ("tinystore", "tinystore123"))
        }
        LoginAction::Nothing => panic!("the keys are stored"),
    }
}

#[test]
fn form_errors() {
    assert_eq!(bucket_form_error("").as_deref(), Some("Bucket name cannot be empty"));
    assert_eq!(bucket_form_error("photos"), None);
    assert_eq!(credential_form_error("", "s").as_deref(), Some("Access key and secret key cannot be empty"));
    assert_eq!(credential_form_error("a", "s"), None);
    assert_eq!(login_form_error("", "").as_deref(), Some("Please enter both access key and secret key"));
    assert_eq!(login_form_error("tinystore", "tinystore123"), None);
}
