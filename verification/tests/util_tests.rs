use temp_file_host::{
    extract_bearer_token, format_duration, generate_short_hash, generate_signature,
    is_empty_or_whitespace, is_expired, parse_curl_response, sanitize_filename, sha256_hash,
    sha256_short_hash, u64_to_string, urlencode, validate_file_extension, validate_file_size,
    validate_hash_format, validate_string_length, validate_url, verify_short_hash,
    verify_signature, ApiError, ErrorResponse, SuccessResponse,
};

#[test]
fn sha256_matches_known_vectors() {
    assert_eq!(
        sha256_hash(b""),
        "e3b0c44298fc1c149afbf4c8996fb92427ae41e4649b934ca495991b7852b855"
    );
    assert_eq!(
        sha256_hash(b"hello"),
        "2cf24dba5fb0a30e26e83b2ac5b9e29e1b161e5c1fa7425e73043362938b9824"
    );
    assert_eq!(sha256_short_hash(b"hello"), "2cf24dba5fb0a30e");
}

#[test]
fn hmac_signatures_match_known_vectors() {
    let msg = b"The quick brown fox jumps over the lazy dog";
    assert_eq!(
        generate_signature(msg, b"key", "sha256").unwrap(),
        "f7bc83f430538424b13298e6aa6fb143ef4d59a14946175997479dbc2d1a3cd8"
    );
    assert_eq!(
        generate_signature(msg, b"key", "sha1").unwrap(),
        "de7c9b85b8b78aa6bc8a7a36f70a90701c9db4d9"
    );
    match generate_signature(msg, b"key", "md5") {
        Err(m) => assert_eq!(m, "Invalid signature type"),
        Ok(_) => panic!("expected an error"),
    }

    assert!(verify_signature(
        msg,
        "f7bc83f430538424b13298e6aa6fb143ef4d59a14946175997479dbc2d1a3cd8",
        b"key",
        "sha256"
    )
    .unwrap());
    assert!(!verify_signature(msg, "f7bc83f4", b"key", "sha256").unwrap());
}

#[test]
fn short_hashes_truncate_the_signature() {
    let msg = "The quick brown fox jumps over the lazy dog";
    assert_eq!(generate_short_hash(msg, "key"), "f7bc83f430");
    assert!(verify_short_hash(msg, "f7bc83f430", "key"));
    assert!(!verify_short_hash(msg, "f7bc83f431", "key"));
}

#[test]
fn hash_format_requires_sixteen_hex_digits() {
    assert!(validate_hash_format("0123456789abcdef"));
    assert!(validate_hash_format("0123456789ABCDEF"));
    assert!(!validate_hash_format("0123456789abcde"));
    assert!(!validate_hash_format("0123456789abcdef0"));
    assert!(!validate_hash_format("0123456789abcdeg"));
    assert!(!validate_hash_format(""));
}

#[test]
fn filenames_lose_their_path_separators() {
    assert_eq!(sanitize_filename("a/b\\c.txt"), "a_b_c.txt");
    assert_eq!(sanitize_filename("plain.txt"), "plain.txt");
    assert_eq!(sanitize_filename("../../etc/passwd"), ".._.._etc_passwd");
}

#[test]
fn curl_responses_split_into_headers_and_body() {
    let raw = "HTTP/1.1 200 OK\r\nContent-Type: text/html\r\nX-Thing:  padded \r\n\r\nline one\nline two\n";
    let (headers, body) = parse_curl_response(raw);
    assert_eq!(body, "line one\nline two");
    let get = |k: &str| {
        headers
            .iter()
            .find(|(name, _)| name == k)
            .map(|(_, v)| v.clone())
    };
    assert_eq!(get("status").as_deref(), Some("HTTP/1.1 200 OK"));
    assert_eq!(get("content-type").as_deref(), Some("text/html"));
    assert_eq!(get("x-thing").as_deref(), Some("padded"));
}

#[test]
fn curl_responses_without_blank_line_have_no_body() {
    let (headers, body) = parse_curl_response("HTTP/1.1 404 Not Found\r\nServer: x");
    assert_eq!(headers.len(), 2);
    assert_eq!(body, "");
}

#[test]
fn repeated_headers_keep_the_last_value() {
    let raw = "A: 1\nA: 2\n\nbody";
    let (headers, body) = parse_curl_response(raw);
    assert_eq!(headers.len(), 1);
    assert_eq!(headers[0].0, "a");
    assert_eq!(headers[0].1, "2");
    assert_eq!(body, "body");
}

#[test]
fn file_sizes_validate_against_the_ceiling() {
    assert!(validate_file_size(10, 10));
    assert!(!validate_file_size(11, 10));
}

#[test]
fn file_extensions_compare_case_insensitively() {
    assert!(validate_file_extension("report.TXT", &["txt", "md"]));
    assert!(validate_file_extension("archive.tar.gz", &["gz"]));
    assert!(!validate_file_extension("binary.exe", &["txt", "md"]));
    // A name without a dot offers the whole name as its extension.
    assert!(validate_file_extension("txt", &["txt"]));
}

#[test]
fn urls_validate_by_parsing() {
    assert!(validate_url("https://example.com/path?q=1"));
    assert!(!validate_url("not a url"));
}

#[test]
fn blank_strings_are_recognized() {
    assert!(is_empty_or_whitespace(""));
    assert!(is_empty_or_whitespace(" \t\r\n"));
    assert!(is_empty_or_whitespace("\u{00A0}"));
    assert!(!is_empty_or_whitespace(" a "));
}

#[test]
fn string_lengths_validate_in_bytes() {
    assert!(validate_string_length("abc", 1, 3));
    assert!(!validate_string_length("abcd", 1, 3));
    assert!(!validate_string_length("", 1, 3));
    // Length counts bytes, not characters.
    assert!(!validate_string_length("ää", 1, 3));
}

#[test]
fn bearer_tokens_extract_from_the_header() {
    assert_eq!(extract_bearer_token("Bearer abc123"), Some("abc123"));
    assert_eq!(extract_bearer_token("Bearer "), Some(""));
    assert_eq!(extract_bearer_token("Basic abc123"), None);
    assert_eq!(extract_bearer_token("bearer abc123"), None);
    assert_eq!(extract_bearer_token(""), None);
}

#[test]
fn numbers_render_in_decimal() {
    assert_eq!(u64_to_string(0), "0");
    assert_eq!(u64_to_string(7), "7");
    assert_eq!(u64_to_string(1234567890), "1234567890");
    assert_eq!(u64_to_string(u64::MAX), "18446744073709551615");
}

#[test]
fn durations_render_at_a_coarse_unit() {
    assert_eq!(format_duration(0), "0s");
    assert_eq!(format_duration(59), "59s");
    assert_eq!(format_duration(-5), "-5s");
    assert_eq!(format_duration(60), "1m0s");
    assert_eq!(format_duration(125), "2m5s");
    assert_eq!(format_duration(3600), "1h0m");
    assert_eq!(format_duration(3661), "1h1m");
    assert_eq!(format_duration(86400), "1d0h");
    assert_eq!(format_duration(90000), "1d1h");
}

#[test]
fn expiry_compares_against_the_window() {
    let day = 24 * 60 * 60;
    let now = 100 * day;
    assert!(is_expired(now - 8 * day, now, 7));
    assert!(!is_expired(now - 6 * day, now, 7));
    assert!(!is_expired(now, now, 0));
    assert!(is_expired(now - 1, now, 0));
}

#[test]
fn percent_encoding_keeps_only_unreserved_bytes() {
    assert_eq!(urlencode("abc-XYZ_0.9~"), "abc-XYZ_0.9~");
    assert_eq!(urlencode("a b/c"), "a%20b%2Fc");
    assert_eq!(urlencode("ä"), "%C3%A4");
    assert_eq!(urlencode(""), "");
}

#[test]
fn api_errors_map_to_their_status_codes() {
    assert_eq!(ApiError::BadRequest("x".to_string()).status_code(), 400);
    assert_eq!(ApiError::Unauthorized("x".to_string()).status_code(), 401);
    assert_eq!(ApiError::Forbidden("x".to_string()).status_code(), 403);
    assert_eq!(ApiError::NotFound("x".to_string()).status_code(), 404);
    assert_eq!(
        ApiError::InternalServerError("x".to_string()).status_code(),
        500
    );
    assert_eq!(
        ApiError::ServiceUnavailable("x".to_string()).status_code(),
        503
    );
    assert_eq!(ApiError::NotFound("gone".to_string()).message(), "gone");
}

#[test]
fn response_envelopes_mark_success_and_failure() {
    let ok = SuccessResponse::new(41u32);
    assert!(ok.success);
    assert_eq!(ok.data, 41);
    let err = ErrorResponse::new("broken".to_string());
    assert!(!err.success);
    assert_eq!(err.error, "broken");
}
