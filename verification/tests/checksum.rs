//! The checksum aggregator: out-of-order per-slice states fold into the
//! checksum of the concatenated bytes.

use crc32fast::Hasher;
use thunderstorm::checksum::ChecksumAggregator;

#[test]
fn aggregate_equals_direct_checksum() {
    let parts: Vec<Vec<u8>> = vec![
        (0..1000u32).map(|i| i as u8).collect(),
        vec![7u8; 333],
        (0..50u32).map(|i| (i * 3) as u8).collect(),
    ];
    let concat: Vec<u8> = parts.iter().flatten().copied().collect();

    let mut agg = ChecksumAggregator::new(parts.len());
    for (i, part) in parts.iter().enumerate() {
        let mut h = Hasher::new();
        h.update(part);
        agg.insert(i, h);
    }
    assert!(agg.complete());
    assert_eq!(agg.finalize(), crc32fast::hash(&concat));
}

#[test]
fn arrival_order_does_not_matter() {
    let parts: Vec<Vec<u8>> = vec![
        vec![1u8; 100],
        vec![2u8; 200],
        vec![3u8; 300],
        vec![4u8; 400],
    ];
    let concat: Vec<u8> = parts.iter().flatten().copied().collect();

    // Index order.
    let mut forward = ChecksumAggregator::new(4);
    for (i, part) in parts.iter().enumerate() {
        let mut h = Hasher::new();
        h.update(part);
        forward.insert(i, h);
    }
    // A different completion order, as concurrent slices produce.
    let mut shuffled = ChecksumAggregator::new(4);
    for &i in &[2usize, 0, 3, 1] {
        let mut h = Hasher::new();
        h.update(&parts[i]);
        shuffled.insert(i, h);
    }
    let a = forward.finalize();
    let b = shuffled.finalize();
    assert_eq!(a, b);
    assert_eq!(a, crc32fast::hash(&concat));
}

#[test]
fn incomplete_aggregator_is_not_complete() {
    let mut agg = ChecksumAggregator::new(3);
    assert!(!agg.complete());
    agg.insert(1, Hasher::new());
    assert!(!agg.complete());
    assert!(agg.has(1));
    assert!(!agg.has(0));
}

#[test]
fn states_split_mid_stream_still_aggregate() {
    // One slice hashed in two updates equals the same bytes hashed at once.
    let bytes: Vec<u8> = (0..4096u32).map(|i| (i % 251) as u8).collect();
    let mut split = Hasher::new();
    split.update(&bytes[..1000]);
    split.update(&bytes[1000..]);
    let mut agg = ChecksumAggregator::new(1);
    agg.insert(0, split);
    assert_eq!(agg.finalize(), crc32fast::hash(&bytes));
}

#[test]
fn empty_aggregator_is_checksum_of_nothing() {
    let agg = ChecksumAggregator::new(0);
    assert!(agg.complete());
    assert_eq!(agg.finalize(), crc32fast::hash(&[]));
}
