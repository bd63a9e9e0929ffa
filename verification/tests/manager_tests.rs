use temp_file_host::{AppError, ContentStore, FetchManager, JobState, ProxyRequest};

fn plain_request(url: &str) -> ProxyRequest {
    ProxyRequest::new(url.to_string(), None, None)
}

fn new_manager(pool: usize) -> FetchManager {
    FetchManager::new(pool, 3600, 100, "http://host/".to_string())
}

#[test]
fn fingerprints_ignore_header_insertion_order() {
    let mut a = ProxyRequest::new(
        "http://example.com/f".to_string(),
        Some("POST".to_string()),
        Some("body".to_string()),
    );
    a.add_header("accept".to_string(), "text/plain".to_string());
    a.add_header("x-token".to_string(), "t1".to_string());

    let mut b = ProxyRequest::new(
        "http://example.com/f".to_string(),
        Some("POST".to_string()),
        Some("body".to_string()),
    );
    b.add_header("x-token".to_string(), "t1".to_string());
    b.add_header("accept".to_string(), "text/plain".to_string());

    assert_eq!(a.generate_cache_key(), b.generate_cache_key());
}

#[test]
fn fingerprints_distinguish_requests() {
    let a = plain_request("http://example.com/one");
    let b = plain_request("http://example.com/two");
    assert_ne!(a.generate_cache_key(), b.generate_cache_key());

    // An explicit GET and a defaulted method fingerprint alike.
    let c = ProxyRequest::new("http://example.com/one".to_string(), Some("GET".to_string()), None);
    assert_eq!(a.generate_cache_key(), c.generate_cache_key());

    // Replacing a header's value changes the fingerprint.
    let mut d = plain_request("http://example.com/one");
    d.add_header("k".to_string(), "1".to_string());
    let mut e = plain_request("http://example.com/one");
    e.add_header("k".to_string(), "1".to_string());
    e.add_header("k".to_string(), "2".to_string());
    assert_ne!(d.generate_cache_key(), e.generate_cache_key());
}

#[test]
fn pipeline_runs_forward_and_serves_the_cache() {
    let mut mgr = new_manager(2);
    let mut store = ContentStore::new(1024);
    let req = plain_request("http://remote/files/report.txt");

    let accepted = mgr.submit(&req, 100).unwrap();
    assert_eq!(accepted.status_url, "http://host/proxy/status/0");

    // Observed states never move backwards: Pending, Downloading,
    // Processing, Completed.
    let s0 = mgr.get_job_status(accepted.job_id).unwrap();
    assert!(matches!(s0.state, JobState::Pending));
    assert_eq!(s0.created_at, 100);

    assert!(mgr.begin_download(accepted.job_id, 101));
    let s1 = mgr.get_job_status(accepted.job_id).unwrap();
    assert!(matches!(s1.state, JobState::Downloading));

    assert!(mgr.begin_processing(accepted.job_id, 102));
    let s2 = mgr.get_job_status(accepted.job_id).unwrap();
    assert!(matches!(s2.state, JobState::Processing));

    let url = mgr
        .complete_job(&mut store, &req, accepted.job_id, b"contents".to_vec(), 103)
        .unwrap();
    assert!(url.starts_with("http://host/download/"));
    assert!(url.ends_with("?filename=report.txt"));

    let s3 = mgr.get_job_status(accepted.job_id).unwrap();
    assert!(matches!(s3.state, JobState::Completed));
    assert_eq!(s3.final_url.as_deref(), Some(url.as_str()));
    assert_eq!(s3.created_at, 100);
    assert_eq!(s3.updated_at, 103);

    // A second identical request is served from the cache: the same job,
    // and no new one.
    let again = mgr.submit(&req, 104).unwrap();
    assert_eq!(again.job_id, accepted.job_id);
    assert!(mgr.get_job_status(1).is_err());
}

#[test]
fn transitions_cannot_move_backwards() {
    let mut mgr = new_manager(2);
    let req = plain_request("http://remote/x");
    let accepted = mgr.submit(&req, 1).unwrap();
    assert!(mgr.begin_download(accepted.job_id, 2));
    // Repeating a step or skipping backwards is refused.
    assert!(!mgr.begin_download(accepted.job_id, 3));
    assert!(mgr.begin_processing(accepted.job_id, 4));
    assert!(!mgr.begin_download(accepted.job_id, 5));
    // A completed job never changes again.
    let mut store = ContentStore::new(1024);
    mgr.complete_job(&mut store, &req, accepted.job_id, b"x".to_vec(), 6)
        .unwrap();
    assert!(!mgr.fail_job(accepted.job_id, "late".to_string(), 7));
    let s = mgr.get_job_status(accepted.job_id).unwrap();
    assert!(matches!(s.state, JobState::Completed));
}

#[test]
fn pool_admits_up_to_its_size_and_rejects_the_rest() {
    let mut mgr = new_manager(2);
    let r1 = mgr.submit(&plain_request("http://remote/1"), 1);
    let r2 = mgr.submit(&plain_request("http://remote/2"), 1);
    let r3 = mgr.submit(&plain_request("http://remote/3"), 1);
    assert!(r1.is_ok());
    assert!(r2.is_ok());
    assert!(matches!(r3, Err(AppError::ServiceUnavailable(_))));
}

#[test]
fn failing_a_job_releases_its_slot() {
    let mut mgr = new_manager(1);
    let first = mgr.submit(&plain_request("http://remote/1"), 1).unwrap();
    assert!(matches!(
        mgr.submit(&plain_request("http://remote/2"), 1),
        Err(AppError::ServiceUnavailable(_))
    ));
    assert!(mgr.begin_download(first.job_id, 2));
    assert!(mgr.fail_job(first.job_id, "connection reset".to_string(), 3));

    let s = mgr.get_job_status(first.job_id).unwrap();
    assert!(matches!(s.state, JobState::Failed));
    assert_eq!(s.error_message.as_deref(), Some("connection reset"));
    assert!(s.final_url.is_none());

    // The slot is free again.
    assert!(mgr.submit(&plain_request("http://remote/2"), 4).is_ok());
}

#[test]
fn completing_a_job_releases_its_slot() {
    let mut mgr = new_manager(1);
    let mut store = ContentStore::new(1024);
    let req = plain_request("http://remote/a");
    let first = mgr.submit(&req, 1).unwrap();
    assert!(mgr.begin_download(first.job_id, 2));
    assert!(mgr.begin_processing(first.job_id, 3));
    mgr.complete_job(&mut store, &req, first.job_id, b"a".to_vec(), 4)
        .unwrap();
    assert!(mgr.submit(&plain_request("http://remote/b"), 5).is_ok());
}

#[test]
fn an_unfinished_job_is_not_served_from_the_cache() {
    let mut mgr = new_manager(3);
    let req = plain_request("http://remote/slow");
    let first = mgr.submit(&req, 1).unwrap();
    // The first job is still pending, so an identical request starts a
    // second job rather than reusing the first.
    let second = mgr.submit(&req, 2).unwrap();
    assert_ne!(first.job_id, second.job_id);
}

#[test]
fn an_expired_cache_entry_starts_a_new_job() {
    let mut mgr = FetchManager::new(2, 10, 100, "http://host".to_string());
    let mut store = ContentStore::new(1024);
    let req = plain_request("http://remote/f");
    let first = mgr.submit(&req, 100).unwrap();
    assert!(mgr.begin_download(first.job_id, 100));
    assert!(mgr.begin_processing(first.job_id, 100));
    mgr.complete_job(&mut store, &req, first.job_id, b"f".to_vec(), 100)
        .unwrap();

    // Within the time-to-live the completed job is reused; after it, not.
    let hit = mgr.submit(&req, 105).unwrap();
    assert_eq!(hit.job_id, first.job_id);
    let miss = mgr.submit(&req, 200).unwrap();
    assert_ne!(miss.job_id, first.job_id);
}

#[test]
fn a_failed_store_fails_the_job() {
    let mut mgr = new_manager(1);
    let mut store = ContentStore::new(2);
    let req = plain_request("http://remote/big.bin");
    let first = mgr.submit(&req, 1).unwrap();
    assert!(mgr.begin_download(first.job_id, 2));
    assert!(mgr.begin_processing(first.job_id, 3));
    let r = mgr.complete_job(&mut store, &req, first.job_id, b"too big".to_vec(), 4);
    assert!(matches!(r, Err(AppError::PayloadTooLarge(_))));
    let s = mgr.get_job_status(first.job_id).unwrap();
    assert!(matches!(s.state, JobState::Failed));
    let msg = s.error_message.unwrap();
    assert!(msg.starts_with("Failed to save file: "));
    // The slot was released on the failure path too.
    assert!(mgr.submit(&plain_request("http://remote/other"), 5).is_ok());
}

#[test]
fn unknown_job_ids_are_not_found() {
    let mgr = new_manager(1);
    match mgr.get_job_status(5) {
        Err(e) => {
            assert_eq!(e.status_code(), 404);
            assert_eq!(e.surfaced_message(), "Job with ID 5 not found");
        },
        Ok(_) => panic!("expected an error"),
    }
}

#[test]
fn status_urls_trim_the_base() {
    let mut mgr = FetchManager::new(1, 3600, 100, "http://host///".to_string());
    let r = mgr.submit(&plain_request("http://remote/x"), 1).unwrap();
    assert_eq!(r.status_url, "http://host/proxy/status/0");
}

#[test]
fn download_urls_encode_the_filename() {
    let mut mgr = new_manager(1);
    let mut store = ContentStore::new(1024);
    let req = plain_request("http://remote/dir/two%20words");
    let first = mgr.submit(&req, 1).unwrap();
    assert!(mgr.begin_download(first.job_id, 2));
    assert!(mgr.begin_processing(first.job_id, 3));
    let url = mgr
        .complete_job(&mut store, &req, first.job_id, b"z".to_vec(), 4)
        .unwrap();
    assert!(url.ends_with("?filename=two%2520words"));
}
