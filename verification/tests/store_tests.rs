use temp_file_host::{validate_hash_format, AppError, ContentStore, UploadSink};

const DAY: u64 = 24 * 60 * 60;

#[test]
fn test_cleanup_old_files() {
    let now: u64 = 100 * DAY;
    let mut store = ContentStore::new(1024 * 1024);
    let one_week_ago = now - 7 * DAY;
    store
        .save_file_from_bytes("test.txt", b"".to_vec(), one_week_ago)
        .unwrap();
    assert_eq!(0, store.cleanup_old_files(now, 10));
    assert_eq!(1, store.cleanup_old_files(now, 1));

    store
        .save_file_from_bytes("test.txt", b"".to_vec(), one_week_ago)
        .unwrap();
    assert_eq!(1, store.cleanup_old_files(now, 3));
}

#[test]
fn upload_then_download_round_trips() {
    let mut store = ContentStore::new(1024);
    let meta = store
        .save_file_from_bytes("notes.txt", b"hello world".to_vec(), 10)
        .unwrap();
    let bytes = store.get(&meta.short_hash).unwrap();
    assert_eq!(bytes, b"hello world".to_vec());
    assert_eq!(meta.original_filename, "notes.txt");
}

#[test]
fn identifiers_pass_the_download_check() {
    let mut store = ContentStore::new(1024);
    let meta = store
        .save_file_from_bytes("f.bin", b"anything".to_vec(), 1)
        .unwrap();
    assert!(validate_hash_format(&meta.short_hash));
    assert_eq!(store.get(&meta.short_hash).unwrap(), b"anything".to_vec());
}

#[test]
fn repeated_upload_is_deduplicated() {
    let mut store = ContentStore::new(1024);
    let first = store
        .save_file_from_bytes("a.bin", b"same bytes".to_vec(), 10)
        .unwrap();
    let second = store
        .save_file_from_bytes("b.bin", b"same bytes".to_vec(), 20)
        .unwrap();
    assert_eq!(first.short_hash, second.short_hash);
    assert_eq!(store.blob_count(), 1);
}

#[test]
fn dedup_refreshes_the_retention_clock() {
    let now: u64 = 100 * DAY;
    let mut store = ContentStore::new(1024);
    store
        .save_file_from_bytes("a.bin", b"data".to_vec(), now - 9 * DAY)
        .unwrap();
    // A re-upload at `now` resets the modification time, so a sweep that
    // would have deleted the blob keeps it.
    store
        .save_file_from_bytes("a.bin", b"data".to_vec(), now)
        .unwrap();
    assert_eq!(0, store.cleanup_old_files(now, 5));
    assert_eq!(store.blob_count(), 1);
}

#[test]
fn oversized_upload_is_rejected_and_leaves_nothing() {
    let mut store = ContentStore::new(4);
    let r = store.save_file_from_bytes("big.bin", b"12345".to_vec(), 10);
    match r {
        Err(AppError::PayloadTooLarge(msg)) => {
            assert_eq!(msg, "File size exceeds limit of 0 MB");
        },
        _ => panic!("expected PayloadTooLarge"),
    }
    assert_eq!(store.blob_count(), 0);
}

#[test]
fn empty_filename_is_rejected() {
    let mut store = ContentStore::new(1024);
    let r = store.save_file_from_bytes("", b"data".to_vec(), 10);
    assert!(matches!(r, Err(AppError::UserError(_))));
    assert_eq!(store.blob_count(), 0);
}

#[test]
fn download_of_malformed_identifier_is_not_found() {
    let store = ContentStore::new(1024);
    assert!(matches!(store.get("nothex!"), Err(AppError::NotFound(_))));
    assert!(matches!(
        store.get("0123456789abcde"),
        Err(AppError::NotFound(_))
    ));
}

#[test]
fn download_of_absent_identifier_is_not_found() {
    let store = ContentStore::new(1024);
    assert!(matches!(
        store.get("0123456789abcdef"),
        Err(AppError::NotFound(_))
    ));
}

#[test]
fn streamed_upload_matches_whole_upload() {
    let mut store = ContentStore::new(1024);
    let mut sink = UploadSink::new(1024);
    sink.push_chunk(b"hello ").unwrap();
    sink.push_chunk(b"world").unwrap();
    let meta = sink.finish(&mut store, "greeting.txt", 5).unwrap();

    let mut other = ContentStore::new(1024);
    let whole = other
        .save_file_from_bytes("greeting.txt", b"hello world".to_vec(), 5)
        .unwrap();
    assert_eq!(meta.short_hash, whole.short_hash);
    assert_eq!(meta.sha256_hash, whole.sha256_hash);
}

#[test]
fn stream_aborts_as_soon_as_the_ceiling_is_crossed() {
    let mut sink = UploadSink::new(8);
    sink.push_chunk(b"12345").unwrap();
    let r = sink.push_chunk(b"6789");
    assert!(matches!(r, Err(AppError::PayloadTooLarge(_))));
    // The sink keeps what it had; a chunk that still fits is accepted.
    sink.push_chunk(b"678").unwrap();
}

#[test]
fn retention_keeps_young_blobs_and_deletes_old_ones() {
    let now: u64 = 100 * DAY;
    let mut store = ContentStore::new(1024);
    let old = store
        .save_file_from_bytes("old.bin", b"old".to_vec(), now - 10 * DAY)
        .unwrap();
    let young = store
        .save_file_from_bytes("young.bin", b"young".to_vec(), now - 1 * DAY)
        .unwrap();
    assert_eq!(1, store.cleanup_old_files(now, 5));
    assert!(matches!(store.get(&old.short_hash), Err(AppError::NotFound(_))));
    assert_eq!(store.get(&young.short_hash).unwrap(), b"young".to_vec());
}

#[test]
fn app_errors_map_to_their_status_codes() {
    assert_eq!(AppError::UserError("x".to_string()).status_code(), 400);
    assert_eq!(AppError::PayloadTooLarge("x".to_string()).status_code(), 413);
    assert_eq!(AppError::NotFound("x".to_string()).status_code(), 404);
    assert_eq!(
        AppError::ServiceUnavailable("x".to_string()).status_code(),
        503
    );
    assert_eq!(AppError::InternalError("x".to_string()).status_code(), 500);
    // Internal detail is not surfaced.
    assert_eq!(
        AppError::InternalError("disk on fire".to_string()).surfaced_message(),
        "Internal server error"
    );
    assert_eq!(
        AppError::UserError("bad field".to_string()).surfaced_message(),
        "bad field"
    );
}
