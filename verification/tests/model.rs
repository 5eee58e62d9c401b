//! The job state machine: queueing, one job at a time, cancellation,
//! completion records, settings.

use thunderstorm::errors::DownloadError;
use thunderstorm::model::{
    CancelOutcome, File, Job, PartialSettings, QueueOutcome, RtState, State,
    UploadCandidate,
};

fn fresh_state() -> State {
    State {
        next_id: 1,
        channel_id: String::new(),
        guild_id: String::new(),
        token: String::new(),
        do_encrypt: true,
        do_checksum: true,
        download_location: String::new(),
        files: Vec::new(),
        rt: RtState::default(),
    }
}

fn record(id: u32, crc32: u32) -> File {
    File {
        id,
        path: format!("/tmp/file-{}", id),
        size: 100,
        download_ids: vec![1111, 2222],
        created_at: 0,
        updated_at: 0,
        crc32,
        encryption_key: None,
    }
}

fn candidate(path: &str, size: u64, is_file: bool) -> UploadCandidate {
    UploadCandidate { path: path.to_string(), size, is_file }
}

#[test]
fn job_compatibility() {
    assert!(Job::Idle.is_upload_extendable());
    assert!(Job::Upload.is_upload_extendable());
    assert!(!Job::Download.is_upload_extendable());
    assert!(Job::Idle.is_download_extendable());
    assert!(!Job::Upload.is_download_extendable());
    assert!(Job::Download.is_download_extendable());
    let mut j = Job::Upload;
    assert_eq!(j.take(), Job::Upload);
    assert_eq!(j, Job::Idle);
}

#[test]
fn upload_queue_filters_and_starts() {
    let mut s = fresh_state();
    let r = s.extend_upload_queue(vec![
        candidate("/a", 10, true),
        candidate("/empty", 0, true),
        candidate("/dir", 5, false),
        candidate("/b", 20, true),
    ]);
    assert_eq!(r, QueueOutcome::Queued { count: 2, start: true });
    assert_eq!(s.rt.upload_queue, vec!["/a".to_string(), "/b".to_string()]);
    // FIFO order out.
    assert_eq!(s.start_next_upload(), Some("/a".to_string()));
    assert_eq!(s.rt.job, Job::Upload);
    // While uploading, more uploads queue without a second start.
    let r = s.extend_upload_queue(vec![candidate("/c", 1, true)]);
    assert_eq!(r, QueueOutcome::Queued { count: 1, start: false });
    // Downloads are rejected while uploading.
    s.files.push(record(1, 0));
    assert_eq!(s.extend_download_queue(vec![1]), QueueOutcome::Rejected);
    assert_eq!(s.start_next_upload(), Some("/b".to_string()));
    assert_eq!(s.start_next_upload(), Some("/c".to_string()));
    assert_eq!(s.start_next_upload(), None);
    assert_eq!(s.rt.job, Job::Idle);
}

#[test]
fn nothing_usable_queues_nothing() {
    let mut s = fresh_state();
    let r = s.extend_upload_queue(vec![candidate("/empty", 0, true)]);
    assert_eq!(r, QueueOutcome::Empty);
    assert!(s.rt.upload_queue.is_empty());
}

#[test]
fn download_queue_keeps_known_ids_only() {
    let mut s = fresh_state();
    s.files.push(record(1, 0));
    s.files.push(record(3, 0));
    let r = s.extend_download_queue(vec![3, 2, 1]);
    assert_eq!(r, QueueOutcome::Queued { count: 2, start: true });
    assert_eq!(s.rt.download_queue, vec![3, 1]);
    assert_eq!(s.start_next_download(), Some(3));
    assert_eq!(s.rt.job, Job::Download);
    // Uploads are rejected while downloading.
    assert_eq!(
        s.extend_upload_queue(vec![candidate("/x", 1, true)]),
        QueueOutcome::Rejected
    );
}

#[test]
fn cancel_mid_upload_clears_queue_and_creates_no_record() {
    // Cancel lands after the first cluster's reservation, before finalize:
    // the queue is cleared and no record exists.
    let mut s = fresh_state();
    s.extend_upload_queue(vec![candidate("/a", 10, true), candidate("/b", 10, true)]);
    let started = s.start_next_upload();
    assert_eq!(started, Some("/a".to_string()));
    let files_before = s.files.len();
    let r = s.cancel();
    assert_eq!(r, CancelOutcome::CanceledUpload);
    assert_eq!(s.rt.job, Job::Idle);
    assert!(s.rt.upload_queue.is_empty());
    assert_eq!(s.files.len(), files_before);
}

#[test]
fn cancel_with_no_job() {
    let mut s = fresh_state();
    assert_eq!(s.cancel(), CancelOutcome::NoJob);
    assert_eq!(s.rt.job, Job::Idle);
}

#[test]
fn upload_completion_creates_the_record() {
    let mut s = fresh_state();
    s.extend_upload_queue(vec![candidate("/a", 10, true)]);
    s.start_next_upload();
    let id = s.upload_finished(
        "/a".to_string(),
        10,
        vec![777],
        0xdead_beef,
        None,
        1_700_000_000,
    );
    assert_eq!(id, 1);
    assert_eq!(s.next_id, 2);
    assert_eq!(s.files.len(), 1);
    assert_eq!(s.files[0].path, "/a");
    assert_eq!(s.files[0].crc32, 0xdead_beef);
    assert_eq!(s.files[0].download_ids, vec![777]);
    // No more queued work: back to idle.
    assert_eq!(s.start_next_upload(), None);
    assert_eq!(s.rt.job, Job::Idle);
}

#[test]
fn failure_clears_the_queue() {
    let mut s = fresh_state();
    s.extend_upload_queue(vec![candidate("/a", 1, true), candidate("/b", 1, true)]);
    s.start_next_upload();
    s.upload_failed();
    assert_eq!(s.rt.job, Job::Idle);
    assert!(s.rt.upload_queue.is_empty());
    assert!(s.files.is_empty());
}

#[test]
fn checksum_mismatch_is_job_fatal() {
    let mut s = fresh_state();
    s.files.push(record(5, 0xaaaa_0001));
    s.extend_download_queue(vec![5]);
    s.start_next_download();
    // The computed aggregate differs from the stored checksum.
    let r = s.finish_download(5, Some(0xbbbb_0002));
    match r {
        Err(DownloadError::ChecksumMismatch(expected, actual)) => {
            assert_eq!(expected, 0xaaaa_0001);
            assert_eq!(actual, 0xbbbb_0002);
        },
        _ => panic!("expected a checksum mismatch"),
    }
    assert_eq!(s.rt.job, Job::Idle);
    assert!(s.rt.download_queue.is_empty());
    // The record itself is untouched.
    assert_eq!(s.files.len(), 1);
}

#[test]
fn matching_or_absent_checksum_is_accepted() {
    let mut s = fresh_state();
    s.files.push(record(5, 0x1234));
    s.extend_download_queue(vec![5]);
    s.start_next_download();
    assert!(s.finish_download(5, Some(0x1234)).is_ok());
    // No checksum requested: nothing is compared, never coerced to zero.
    assert!(s.finish_download(5, None).is_ok());
}

#[test]
fn settings_update_erases_records_on_destination_change() {
    let mut s = fresh_state();
    s.files.push(record(1, 0));
    let erased = s.apply_settings(PartialSettings {
        token: Some("SECRET-REDACTED".to_string()),
        channel: None,
        guild: None,
        do_encrypt: Some(false),
        do_checksum: None,
        download_location: None,
    });
    assert!(!erased);
    assert_eq!(s.files.len(), 1);
    assert!(!s.do_encrypt);
    let erased = s.apply_settings(PartialSettings {
        token: None,
        channel: Some("123".to_string()),
        guild: None,
        do_encrypt: None,
        do_checksum: None,
        download_location: None,
    });
    assert!(erased);
    assert!(s.files.is_empty());
    assert_eq!(s.channel_id, "123");
    let view = s.settings();
    assert_eq!(view.channel, "123");
    assert!(!view.do_encrypt);
}

#[test]
fn delete_files_keeps_the_rest_in_order() {
    let mut s = fresh_state();
    s.files.push(record(1, 0));
    s.files.push(record(2, 0));
    s.files.push(record(3, 0));
    s.delete_files(&vec![2, 9]);
    let ids: Vec<u32> = s.files.iter().map(|f| f.id).collect();
    assert_eq!(ids, vec![1, 3]);
}

#[test]
fn aes_key_is_256_bits() {
    let s = fresh_state();
    let k1 = s.aes_key();
    let k2 = s.aes_key();
    assert_eq!(k1.len(), 32);
    assert_eq!(k2.len(), 32);
    // Two draws colliding would mean the generator is not random at all.
    assert_ne!(k1, k2);
}

#[test]
fn find_file_returns_first_match() {
    let mut s = fresh_state();
    s.files.push(record(4, 0));
    s.files.push(record(6, 0));
    assert_eq!(s.find_file(6), Some(1));
    assert_eq!(s.find_file(5), None);
}
