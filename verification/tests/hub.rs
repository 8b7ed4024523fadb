use tpt_local_ai::hub::{
    already_complete, api_url, plan_response, check_download_status, check_listing_status, expected_sha256,
    range_header, resolve_url, sanitize_repo_id, sha256_hex, total_bytes, validate_relative_path,
    validate_repo_id, validate_repo_id_shape, verify_digest, HubError, NoopProgressReporter,
    ProgressReporter, DEFAULT_ENDPOINT, DEFAULT_REVISION,
};

#[test]
fn sanitizes_repo_id() {
    assert_eq!(sanitize_repo_id("meta-llama/Llama-3-8B"), "meta-llama--Llama-3-8B");
    assert_eq!(sanitize_repo_id("gpt2"), "gpt2");
}

#[test]
fn rejects_traversal_repo_ids() {
    assert!(validate_repo_id("../etc/passwd").is_err());
    assert!(validate_repo_id("owner/../../x").is_err());
    assert!(validate_repo_id("C:\\Windows").is_err());
    assert!(validate_repo_id("gpt2").is_ok());
    assert!(validate_repo_id("meta-llama/Llama-3-8B").is_ok());
}

#[test]
fn rejects_traversal_filenames() {
    assert!(validate_relative_path("../secret").is_err());
    assert!(validate_relative_path("a/../../b").is_err());
    assert!(validate_relative_path("/etc/passwd").is_err());
    assert!(validate_relative_path("\\\\server\\share").is_err());
    assert!(validate_relative_path("C:\\x").is_err());
    assert!(validate_relative_path("config.json").is_ok());
    assert!(validate_relative_path("subdir/model.bin").is_ok());
}

#[test]
fn invalid_repo_id_error_names_the_id() {
    assert_eq!(
        validate_repo_id("../x"),
        Err(HubError::InvalidRepoId("../x".to_string()))
    );
    assert_eq!(
        validate_relative_path("../secret"),
        Err(HubError::InvalidPath("../secret".to_string()))
    );
}

#[test]
fn repo_id_shape_rejects_empty_and_edge_slashes() {
    assert!(validate_repo_id_shape("gpt2").is_ok());
    assert!(validate_repo_id_shape("owner/name").is_ok());
    assert!(validate_repo_id_shape("").is_err());
    assert!(validate_repo_id_shape("/x").is_err());
    assert!(validate_repo_id_shape("x/").is_err());
}

#[test]
fn urls_follow_the_hub_layout() {
    assert_eq!(DEFAULT_REVISION, "main");
    assert_eq!(
        resolve_url(DEFAULT_ENDPOINT, "gpt2", "main", "config.json"),
        "https://huggingface.co/gpt2/resolve/main/config.json"
    );
    assert_eq!(
        api_url("http://localhost:1234", "org/m", "v1"),
        "http://localhost:1234/api/models/org/m/revision/v1"
    );
}

#[test]
fn range_header_resumes_after_bytes_on_disk() {
    assert_eq!(range_header(0), None);
    assert_eq!(range_header(10).as_deref(), Some("bytes=10-"));
    assert_eq!(range_header(1234567).as_deref(), Some("bytes=1234567-"));
}

#[test]
fn download_status_rules() {
    assert!(check_download_status("u", 200).is_ok());
    assert!(check_download_status("u", 206).is_ok());
    assert!(check_download_status("u", 416).is_ok());
    assert_eq!(
        check_download_status("u", 404),
        Err(HubError::Status { url: "u".to_string(), status: 404 })
    );
    assert!(check_listing_status("u", 204).is_ok());
    assert!(check_listing_status("u", 416).is_err());
    assert!(already_complete(416));
    assert!(!already_complete(200));
}

#[test]
fn etag_gives_digest_only_when_hex() {
    let digest = "a".repeat(64);
    let quoted = format!("\"{digest}\"");
    assert_eq!(expected_sha256(Some(&quoted)), Some(digest.clone()));
    assert_eq!(expected_sha256(Some("\"abc\"")), None);
    assert_eq!(expected_sha256(Some(&"g".repeat(64))), None);
    assert_eq!(expected_sha256(None), None);
}

#[test]
fn total_bytes_adds_resumed_prefix() {
    assert_eq!(total_bytes(Some(10), 5), Some(15));
    assert_eq!(total_bytes(None, 5), None);
}

#[test]
fn sha256_of_known_input() {
    assert_eq!(
        sha256_hex(b"abc"),
        "ba7816bf8f01cfea414140de5dae2223b00361a396177a9cb410ff61f20015ad"
    );
    assert_eq!(
        sha256_hex(b""),
        "e3b0c44298fc1c149afbf4c8996fb92427ae41e4649b934ca495991b7852b855"
    );
}

#[test]
fn digest_mismatch_is_reported() {
    let actual = sha256_hex(b"tampered content");
    let expected = "0".repeat(64);
    match verify_digest("f", Some(expected.clone()), actual.clone()) {
        Err(HubError::HashMismatch { path, expected: e, actual: a }) => {
            assert_eq!(path, "f");
            assert_eq!(e, expected);
            assert_eq!(a, actual);
        }
        other => panic!("unexpected {other:?}"),
    }
    assert!(verify_digest("f", Some(actual.clone()), actual.clone()).is_ok());
    assert!(verify_digest("f", None, actual).is_ok());
}

#[test]
fn noop_reporter_accepts_events() {
    let r = NoopProgressReporter;
    r.on_start("f", Some(3));
    r.on_progress("f", 1, Some(3));
    r.on_complete("f");
}

#[test]
fn response_plan_collects_the_download_decisions() {
    let digest = "b".repeat(64);
    let etag = format!("\"{digest}\"");
    let plan = plan_response("u", 206, Some(&etag), Some(90), 10).unwrap();
    assert_eq!(plan.expected_sha256, Some(digest));
    assert_eq!(plan.total_bytes, Some(100));
    assert!(!plan.already_complete);
    let plan = plan_response("u", 416, None, None, 10).unwrap();
    assert!(plan.already_complete);
    assert_eq!(plan.total_bytes, None);
    assert!(matches!(
        plan_response("u", 500, None, None, 0),
        Err(HubError::Status { status: 500, .. })
    ));
}

#[test]
fn sanitized_ids_are_single_components() {
    for id in ["a/b", "a/b/c", "x"] {
        assert!(!sanitize_repo_id(id).contains('/'));
    }
}
