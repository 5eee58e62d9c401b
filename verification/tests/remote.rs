//! The remote protocol: retry discipline, request bodies, decimal text,
//! error rendering.

use thunderstorm::errors::{DownloadError, UploadError};
use thunderstorm::remote::{
    download_request_step, fetch_window, finalize_body, get_nonce, nonce_from_millis,
    preupload_body, put_succeeded, take_urls, upload_request_step, Attachment,
    DownloadStep, Take, UploadDetailsInner, UploadStep, NONCE_EPOCH,
};
use thunderstorm::text::{parse_u64, u64_to_string};

#[test]
fn rate_limit_is_retried_not_surfaced() {
    // A 429 with a 0.2 s delay repeats the same request after 200 ms and
    // surfaces no error.
    match upload_request_step(429, 200, String::new()) {
        UploadStep::RetryAfter(ms) => assert_eq!(ms, 200),
        _ => panic!("a rate limit must retry"),
    }
    match download_request_step(429, 200, String::new()) {
        DownloadStep::RetryAfter(ms) => assert_eq!(ms, 200),
        _ => panic!("a rate limit must retry"),
    }
}

#[test]
fn status_mapping_upload() {
    assert!(matches!(upload_request_step(200, 0, String::new()), UploadStep::Done));
    assert!(matches!(
        upload_request_step(401, 0, String::new()),
        UploadStep::Fail(UploadError::Unauthorized)
    ));
    assert!(matches!(
        upload_request_step(403, 0, String::new()),
        UploadStep::Fail(UploadError::Forbidden)
    ));
    assert!(matches!(
        upload_request_step(404, 0, String::new()),
        UploadStep::Fail(UploadError::NotFound)
    ));
    match upload_request_step(500, 0, "Internal Server Error".to_string()) {
        UploadStep::Fail(UploadError::Unknown(code, text)) => {
            assert_eq!(code, 500);
            assert_eq!(text, "Internal Server Error");
        },
        _ => panic!("an unanticipated status is an opaque failure"),
    }
}

#[test]
fn status_mapping_download() {
    assert!(matches!(download_request_step(200, 0, String::new()), DownloadStep::Done));
    assert!(matches!(
        download_request_step(404, 0, String::new()),
        DownloadStep::Fail(DownloadError::NotFound)
    ));
    match download_request_step(502, 0, "Bad Gateway".to_string()) {
        DownloadStep::Fail(DownloadError::Unknown(code, text)) => {
            assert_eq!(code, 502);
            assert_eq!(text, "Bad Gateway");
        },
        _ => panic!("an unanticipated status is an opaque failure"),
    }
}

#[test]
fn put_success_is_any_2xx() {
    assert!(put_succeeded(200));
    assert!(put_succeeded(204));
    assert!(!put_succeeded(199));
    assert!(!put_succeeded(300));
    assert!(!put_succeeded(429));
}

#[test]
fn preupload_body_shape() {
    let body = preupload_body(&vec![100, 26214400]);
    assert_eq!(
        body,
        "{\"files\":[{\"file_size\":100,\"filename\":\"-\",\"id\":0,\"is_clip\":false},\
         {\"file_size\":26214400,\"filename\":\"-\",\"id\":0,\"is_clip\":false}]}"
    );
    assert_eq!(preupload_body(&vec![]), "{\"files\":[]}");
}

#[test]
fn finalize_body_shape() {
    let details = vec![
        UploadDetailsInner {
            upload_url: "https://upload/1".to_string(),
            upload_filename: "stored-1".to_string(),
        },
        UploadDetailsInner {
            upload_url: "https://upload/2".to_string(),
            upload_filename: "stored-2".to_string(),
        },
    ];
    let body = finalize_body(&details, "9999");
    assert_eq!(
        body,
        "{\"attachments\":[{\"filename\":\"-\",\"uploaded_filename\":\"stored-1\",\"id\":\"0\"},\
         {\"filename\":\"-\",\"uploaded_filename\":\"stored-2\",\"id\":\"0\"}],\
         \"channel_id\":\"9999\",\"content\":\"\",\"type\":0,\"sticker_ids\":[]}"
    );
}

#[test]
fn decimal_text_round_trips() {
    assert_eq!(u64_to_string(0), "0");
    assert_eq!(u64_to_string(1234567890), "1234567890");
    assert_eq!(u64_to_string(u64::MAX), "18446744073709551615");
    assert_eq!(parse_u64("0"), Some(0));
    assert_eq!(parse_u64("007"), Some(7));
    assert_eq!(parse_u64("18446744073709551615"), Some(u64::MAX));
    assert_eq!(parse_u64("18446744073709551616"), None);
    assert_eq!(parse_u64(""), None);
    assert_eq!(parse_u64("12a"), None);
    assert_eq!(parse_u64("-1"), None);
}

#[test]
fn fetch_window_is_doubled_and_capped() {
    assert_eq!(fetch_window(1), 2);
    assert_eq!(fetch_window(49), 98);
    assert_eq!(fetch_window(50), 100);
    assert_eq!(fetch_window(51), 100);
    assert_eq!(fetch_window(0), 0);
}

#[test]
fn nonce_counts_milliseconds_past_the_epoch() {
    assert_eq!(nonce_from_millis(NONCE_EPOCH), "0");
    assert_eq!(nonce_from_millis(NONCE_EPOCH + 1), "4194304");
    // A clock before the epoch renders zero rather than wrapping.
    assert_eq!(nonce_from_millis(0), "0");
}

#[test]
fn fresh_nonce_is_a_decimal_number() {
    let nonce = get_nonce();
    assert!(!nonce.is_empty());
    assert!(parse_u64(&nonce).is_some());
}

#[test]
fn attachments_drain_in_order() {
    let mut attachments = vec![
        Attachment { url: "u1".to_string() },
        Attachment { url: "u2".to_string() },
    ];
    let urls = take_urls(&mut attachments);
    assert_eq!(urls, vec!["u1".to_string(), "u2".to_string()]);
    assert!(attachments.is_empty());
    let mut more = vec![Attachment { url: "u3".to_string() }];
    assert_eq!(more.take(), vec!["u3".to_string()]);
}

#[test]
fn error_rendering() {
    let (kind, msg) = UploadError::Unknown(500, "oops".to_string()).serialize();
    assert_eq!(kind, "Unknown");
    assert_eq!(msg, "500 - oops");
    let (kind, msg) = DownloadError::ChecksumMismatch(1, 2).serialize();
    assert_eq!(kind, "ChecksumMismatch");
    assert_eq!(msg, "Expected: 1, Actual: 2");
    let (kind, msg) = DownloadError::Unknown(502, "bad".to_string()).serialize();
    assert_eq!(kind, "");
    assert_eq!(msg, "502 bad");
    let (kind, msg) = UploadError::Transport {
        connect: true,
        timeout: false,
        message: String::new(),
    }
        .serialize();
    assert_eq!(kind, "Reqwest");
    assert_eq!(
        msg,
        "Could not open a connection. Check your internet connection and try again."
    );
    let (kind, msg) = DownloadError::NotFoundRemote.serialize();
    assert_eq!(kind, "NotFoundRemote");
    assert_eq!(msg, "");
    let (kind, _msg) = UploadError::Io("disk full".to_string()).serialize();
    assert_eq!(kind, "Io");
}
