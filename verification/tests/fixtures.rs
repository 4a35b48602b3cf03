use pbdems2::fixtures::{packet_entity_creates, packet_entity_updates};
use pbdems2::io::BitReader;

#[test]
fn entity_create_fixture_lays_out_each_create() {
    // Codes chosen for the test: one set bit per field path, two clear bits to finish.
    let plus_one = [true];
    let finish = [false, false];
    let bytes = packet_entity_creates(1, 3, 1, &plus_one, &finish);
    assert_eq!(bytes, vec![0x80, 0, 0, 0, 0x9C, 0]);

    let mut reader = BitReader::new(&bytes);
    assert_eq!(reader.read_ubitvar().unwrap(), 0);
    assert_eq!(reader.read_bits(2).unwrap(), 0b10);
    assert_eq!(reader.read_bits(1).unwrap(), 0);
    assert_eq!(reader.read_bits(17).unwrap(), 0);
    assert_eq!(reader.read_uvarint32().unwrap(), 0);
    assert_eq!(reader.read_bits(3).unwrap(), 0b111);
    assert_eq!(reader.read_bits(2).unwrap(), 0);
    assert_eq!(reader.read_bits(3).unwrap(), 0b001);
}

#[test]
fn entity_update_fixture_repeats_each_update() {
    let plus_one = [true];
    let finish = [false, false];
    assert_eq!(packet_entity_updates(1, 3, &plus_one, &finish), vec![0x00, 0x27]);
    assert_eq!(
        packet_entity_updates(2, 3, &plus_one, &finish),
        vec![0x00, 0x27, 0x00, 0x27]
    );
    assert!(packet_entity_updates(0, 3, &plus_one, &finish).is_empty());
}
