use pbdems2::capture::{operation, update, CaptureStats, SAMPLE_SIZE};
use pbdems2::io::BitReader;

#[test]
fn operations_and_unfinished_depths_are_counted() {
    let mut stats = CaptureStats::new();
    assert_eq!(stats.operation_counts().len(), 40);
    assert_eq!(stats.depth_counts().len(), 7);
    operation(&mut stats, 3, false, 2);
    operation(&mut stats, 3, true, 0);
    assert_eq!(stats.operation_counts()[3], 2);
    assert_eq!(stats.depth_counts()[2], 1);
    assert_eq!(stats.depth_counts().iter().sum::<u64>(), 1);
}

#[test]
fn an_update_is_recorded_with_its_bits_and_digest() {
    let data = [0b1010_1100, 0xFF];
    let mut reader = BitReader::new(&data);
    reader.read_bits(12).unwrap();
    let mut stats = CaptureStats::new();
    update(&mut stats, &reader, 4, &[1, 2]);
    assert_eq!(stats.updates(), 1);
    assert_eq!(stats.size_counts().get(&2), Some(&1));
    assert_eq!(stats.records(), ["8 2 0000000000000082 fa".to_string()]);
}

#[test]
fn the_sample_stays_at_its_size() {
    let data = [0u8; 1];
    let reader = BitReader::new(&data);
    let mut stats = CaptureStats::new();
    for _ in 0..600 {
        update(&mut stats, &reader, 0, &[]);
    }
    assert_eq!(stats.updates(), 600);
    assert_eq!(stats.records().len() as u64, SAMPLE_SIZE);
    assert_eq!(stats.size_counts().get(&0), Some(&600));
    assert!(stats.records().iter().all(|r| r == "0 0 0000000000000000 "));
}
