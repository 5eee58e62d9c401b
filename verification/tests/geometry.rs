//! Geometry: slice and cluster counts, stored sizes, reservation splits.

use thunderstorm::geometry::{
    file_cluster_slice_count, file_cluster_stored_size, file_total_clusters,
    file_total_slices, stored_file_size, BUFFERS_PER_SLICE, BYTES_PER_SLICE, CLUSTER_SIZE,
    RAW_BUFFER_SIZE, SLICE_SIZE,
};
use thunderstorm::remote::reservation_sizes;

const MIB: u64 = 1024 * 1024;

#[test]
fn derived_constants() {
    assert_eq!(SLICE_SIZE, 25 * MIB);
    assert_eq!(BUFFERS_PER_SLICE, 25);
    assert_eq!(RAW_BUFFER_SIZE, MIB - 16);
    assert_eq!(BYTES_PER_SLICE, 25 * MIB - 25 * 16);
    assert_eq!(CLUSTER_SIZE, 250 * MIB);
}

#[test]
fn sixty_mib_is_three_slices_one_cluster() {
    // A 60 MiB file with 25 MiB slices and a 10-slice cluster cap.
    let n = 60 * MIB;
    assert_eq!(file_total_slices(n, true), 3);
    assert_eq!(file_total_clusters(n, true), 1);
    assert_eq!(file_total_slices(n, false), 3);
    assert_eq!(file_total_clusters(n, false), 1);
    assert_eq!(file_cluster_slice_count(n, true, 0), 3);
    assert_eq!(file_cluster_slice_count(n, false, 0), 3);
}

#[test]
fn plain_stored_size_has_zero_overhead() {
    for n in [0u64, 1, MIB, 25 * MIB, 60 * MIB, 251 * MIB] {
        assert_eq!(stored_file_size(n, false), n);
    }
}

#[test]
fn encrypted_stored_size_counts_one_tag_per_buffer() {
    // One byte becomes one buffer: one tag.
    assert_eq!(stored_file_size(1, true), 17);
    // Exactly one full buffer of plaintext: one tag.
    assert_eq!(stored_file_size(RAW_BUFFER_SIZE, true), MIB);
    // One byte more: a second buffer begins, a second tag.
    assert_eq!(stored_file_size(RAW_BUFFER_SIZE + 1, true), MIB + 17);
    // A full slice of plaintext stores exactly one slice.
    assert_eq!(stored_file_size(BYTES_PER_SLICE, true), SLICE_SIZE);
    // The empty file stores nothing.
    assert_eq!(stored_file_size(0, true), 0);
}

#[test]
fn cluster_sizes_cover_the_stored_size() {
    // Eleven slices: two clusters, the second with one slice.
    let n = 10 * BYTES_PER_SLICE + 5;
    assert_eq!(file_total_slices(n, true), 11);
    assert_eq!(file_total_clusters(n, true), 2);
    let total = stored_file_size(n, true);
    let c0 = file_cluster_stored_size(n, true, 0);
    let c1 = file_cluster_stored_size(n, true, 1);
    assert_eq!(c0, CLUSTER_SIZE);
    assert_eq!(c0 + c1, total);
    assert_eq!(file_cluster_slice_count(n, true, 0), 10);
    assert_eq!(file_cluster_slice_count(n, true, 1), 1);
}

#[test]
fn reservation_split_matches_slice_sizes() {
    // A cluster of two full slices and a 5-byte tail.
    let size = 2 * SLICE_SIZE + 5;
    let sizes = reservation_sizes(size);
    assert_eq!(sizes, vec![SLICE_SIZE, SLICE_SIZE, 5]);
    let sum: u64 = sizes.iter().sum();
    assert_eq!(sum, size);
    // A single partial slice.
    assert_eq!(reservation_sizes(17), vec![17]);
    // Exactly one slice.
    assert_eq!(reservation_sizes(SLICE_SIZE), vec![SLICE_SIZE]);
}
