//! End-to-end: a file is read, encrypted and checksummed through the read
//! pipeline, then fed back through the write pipeline and compared.

use thunderstorm::checksum::ChecksumAggregator;
use thunderstorm::geometry::file_total_slices;
use thunderstorm::reader::Reader;
use thunderstorm::writer::Writer;

const MIB: usize = 1024 * 1024;

fn make_data(n: usize) -> Vec<u8> {
    let mut v = Vec::with_capacity(n);
    let mut x: u32 = 0x1234_5678;
    for _ in 0..n {
        x = x.wrapping_mul(1664525).wrapping_add(1013904223);
        v.push((x >> 24) as u8);
    }
    v
}

/// Runs the read pipeline over in-memory data; returns the stored bytes of
/// each slice of each cluster, the declared cluster sizes, and the
/// whole-file checksum.
fn upload(data: &[u8], key: Option<Vec<u8>>) -> (Vec<Vec<Vec<u8>>>, Vec<u64>, u32) {
    let n = data.len() as u64;
    let encrypted = key.is_some();
    let mut reader = Reader::new(n, key);
    let total_slices = file_total_slices(n, encrypted) as usize;
    let mut agg = ChecksumAggregator::new(total_slices);
    let mut clusters = Vec::new();
    let mut declared = Vec::new();
    while let Some(mut cluster) = reader.next_cluster() {
        declared.push(cluster.get_size());
        let mut slices = Vec::new();
        while let Some(mut slice) = cluster.next_slice() {
            let mut stored = Vec::new();
            while let Some(plan) = slice.plan_next() {
                let start = plan.offset as usize;
                let end = start + plan.len as usize;
                let out = slice.fill(data[start..end].to_vec());
                stored.extend_from_slice(&out);
            }
            let (si, hasher) = slice.finish();
            agg.insert(si as usize, hasher);
            slices.push(stored);
        }
        clusters.push(slices);
    }
    assert!(agg.complete());
    (clusters, declared, agg.finalize())
}

/// Runs the write pipeline over the stored bytes; returns the rebuilt file
/// and its checksum.
fn download(
    clusters: Vec<Vec<Vec<u8>>>,
    key: Option<Vec<u8>>,
    n: usize,
    chunk_size: usize,
) -> (Vec<u8>, u32) {
    let encrypted = key.is_some();
    let writer = Writer::new(key, true);
    let total_slices = file_total_slices(n as u64, encrypted) as usize;
    let mut agg = ChecksumAggregator::new(total_slices);
    let mut out = vec![0u8; n];
    for (ci, slices) in clusters.into_iter().enumerate() {
        let urls: Vec<String> = (0..slices.len()).map(|j| format!("object-{}", j)).collect();
        let cluster = writer.cluster(ci as u64, urls);
        // Slices in reverse completion order: offsets, not timing, decide
        // where bytes land.
        for (j, stored) in slices.into_iter().enumerate().rev() {
            let mut sink = cluster.slice_sink(j as u64);
            for chunk in stored.chunks(chunk_size) {
                let cmds = sink.push_chunk(chunk).expect("authentic stored bytes");
                for cmd in cmds {
                    let at = cmd.offset as usize;
                    out[at..at + cmd.data.len()].copy_from_slice(&cmd.data);
                }
            }
            let (cmds, crc) = sink.finish().expect("authentic stored bytes");
            for cmd in cmds {
                let at = cmd.offset as usize;
                out[at..at + cmd.data.len()].copy_from_slice(&cmd.data);
            }
            let (si, hasher) = crc.expect("checksumming is on");
            agg.insert(si as usize, hasher);
        }
    }
    assert!(agg.complete());
    let crc = agg.finalize();
    (out, crc)
}

#[test]
fn sixty_mib_encrypted_round_trip() {
    // 60 MiB, 25 MiB slices, 10-slice cluster cap: 3 slices, 1 cluster.
    let data = make_data(60 * MIB);
    let key: Vec<u8> = (100u8..132).collect();
    let (clusters, declared, up_crc) = upload(&data, Some(key.clone()));
    assert_eq!(clusters.len(), 1);
    assert_eq!(clusters[0].len(), 3);
    // The declared reservation size is exactly what was produced.
    let produced: usize = clusters[0].iter().map(|s| s.len()).sum();
    assert_eq!(declared[0] as usize, produced);
    assert_eq!(up_crc, crc32fast::hash(&data));

    let (rebuilt, down_crc) = download(clusters, Some(key), data.len(), 57_000);
    assert_eq!(rebuilt, data);
    assert_eq!(down_crc, up_crc);
}

#[test]
fn sixty_mib_plain_round_trip_has_zero_overhead() {
    let data = make_data(60 * MIB);
    let (clusters, declared, up_crc) = upload(&data, None);
    assert_eq!(clusters.len(), 1);
    assert_eq!(clusters[0].len(), 3);
    // With encryption off the stored size is the plaintext size exactly.
    let produced: usize = clusters[0].iter().map(|s| s.len()).sum();
    assert_eq!(produced, data.len());
    assert_eq!(declared[0] as usize, data.len());

    let (rebuilt, down_crc) = download(clusters, None, data.len(), 64 * 1024);
    assert_eq!(rebuilt, data);
    assert_eq!(down_crc, up_crc);
    assert_eq!(down_crc, crc32fast::hash(&data));
}

#[test]
fn small_encrypted_round_trip_across_clusters() {
    // Eleven slices: two clusters; trailing partial buffer and slice.
    let bytes_per_slice = (25 * MIB) - 25 * 16;
    let n = 10 * bytes_per_slice + 12_345;
    let data = make_data(n);
    let key: Vec<u8> = (0u8..32).collect();
    let (clusters, _declared, up_crc) = upload(&data, Some(key.clone()));
    assert_eq!(clusters.len(), 2);
    assert_eq!(clusters[0].len(), 10);
    assert_eq!(clusters[1].len(), 1);
    let (rebuilt, down_crc) = download(clusters, Some(key), n, 8192);
    assert_eq!(rebuilt, data);
    assert_eq!(down_crc, up_crc);
}

#[test]
fn tiny_file_round_trip() {
    let data = make_data(5);
    let key: Vec<u8> = (7u8..39).collect();
    let (clusters, declared, up_crc) = upload(&data, Some(key.clone()));
    assert_eq!(clusters.len(), 1);
    assert_eq!(clusters[0].len(), 1);
    // 5 plaintext bytes cost one tag.
    assert_eq!(declared[0], 21);
    let (rebuilt, down_crc) = download(clusters, Some(key), 5, 3);
    assert_eq!(rebuilt, data);
    assert_eq!(down_crc, up_crc);
}

#[test]
fn corrupted_stored_byte_fails_decrypt() {
    let data = make_data(3 * MIB);
    let key: Vec<u8> = (50u8..82).collect();
    let (mut clusters, _d, _crc) = upload(&data, Some(key.clone()));
    clusters[0][0][123] ^= 1;
    let writer = Writer::new(Some(key), true);
    let cluster = writer.cluster(0, vec!["object-0".to_string()]);
    let mut sink = cluster.slice_sink(0);
    let stored = &clusters[0][0];
    let mut failed = false;
    for chunk in stored.chunks(4096) {
        match sink.push_chunk(chunk) {
            Ok(_) => {},
            Err(_) => {
                failed = true;
                break;
            },
        }
    }
    if !failed {
        failed = sink.finish().is_err();
    }
    assert!(failed);
}
