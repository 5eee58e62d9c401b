//! Windowed handle resolution: matching fetched messages against the
//! still-unresolved cluster handles.

use thunderstorm::errors::DownloadError;
use thunderstorm::resolve::HandleResolver;

#[test]
fn resolves_handles_out_of_order() {
    let mut r = HandleResolver::new(&vec![100, 200, 300]);
    assert_eq!(r.remaining(), 3);
    assert_eq!(r.first_unresolved(), Some(100));
    // The window centered on 100 happens to carry 300 and 100.
    let ms = r
        .apply_window(100, &vec![999, 300, 100])
        .expect("the center is present");
    // (position in window, cluster index) in window order.
    assert_eq!(ms, vec![(1, 2), (2, 0)]);
    assert_eq!(r.remaining(), 1);
    assert_eq!(r.first_unresolved(), Some(200));
    let ms = r.apply_window(200, &vec![200]).expect("the center is present");
    assert_eq!(ms, vec![(0, 1)]);
    assert_eq!(r.remaining(), 0);
    assert_eq!(r.first_unresolved(), None);
}

#[test]
fn missing_center_is_not_found_remotely() {
    let mut r = HandleResolver::new(&vec![10, 20]);
    let e = r.apply_window(10, &vec![55, 66]).unwrap_err();
    assert!(matches!(e, DownloadError::NotFoundRemote));
}

#[test]
fn duplicate_handles_resolve_distinct_clusters() {
    // Two clusters persisted under the same handle value: each window
    // occurrence resolves the first still-unresolved slot.
    let mut r = HandleResolver::new(&vec![7, 7]);
    let ms = r.apply_window(7, &vec![7, 7]).expect("the center is present");
    assert_eq!(ms, vec![(0, 0), (1, 1)]);
    assert_eq!(r.remaining(), 0);
}

#[test]
fn window_ids_not_ours_are_ignored() {
    let mut r = HandleResolver::new(&vec![1, 2, 3]);
    let ms = r.apply_window(2, &vec![50, 2, 60]).expect("the center is present");
    assert_eq!(ms, vec![(1, 1)]);
    assert_eq!(r.remaining(), 2);
    assert_eq!(r.first_unresolved(), Some(1));
}
