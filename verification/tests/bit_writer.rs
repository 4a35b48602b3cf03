use pbdems2::io::{BitReader, BitWriter};

#[test]
fn round_trips_source_varint_encodings() {
    for value in [0, 3, 15, 16, 255, 256, 4095, 65_535] {
        let mut writer = BitWriter::default();
        writer.push_ubitvar(value);
        assert_eq!(
            BitReader::new(&writer.finish()).read_ubitvar().unwrap(),
            value
        );
    }

    for value in [0, 3, 15, 16, 1023, 1024, 131_071, 1_000_000] {
        let mut writer = BitWriter::default();
        writer.push_ubitvarfp(value);
        assert_eq!(
            BitReader::new(&writer.finish()).read_ubitvarfp().unwrap(),
            value
        );
    }
}

#[test]
fn round_trips_signed_and_unsigned_varints() {
    let mut writer = BitWriter::default();
    writer.push_uvarint32(300);
    writer.push_varint32(-123);
    let bytes = writer.finish();
    let mut reader = BitReader::new(&bytes);
    assert_eq!(reader.read_uvarint32().unwrap(), 300);
    assert_eq!(reader.read_varint32().unwrap(), -123);
}

#[test]
fn fixed_width_values_round_trip_across_byte_boundaries() {
    let mut writer = BitWriter::new();
    writer.push_bool(true);
    writer.push_bits(0x2ab, 10);
    writer.push_bits(0xdead_beef, 32);
    assert_eq!(writer.bit_len(), 43);
    let bytes = writer.finish();
    assert_eq!(bytes.len(), 6);
    let mut reader = BitReader::new(&bytes);
    assert!(reader.read_bool().unwrap());
    assert_eq!(reader.read_bits(10).unwrap(), 0x2ab);
    assert_eq!(reader.read_bits(32).unwrap(), 0xdead_beef);
    assert_eq!(reader.position(), 43);
}

#[test]
fn uvarint_takes_seven_bits_per_byte() {
    let mut writer = BitWriter::new();
    writer.push_uvarint32(300);
    assert_eq!(writer.finish(), vec![0xac, 0x02]);
}

#[test]
fn zigzag_maps_small_negatives_to_small_codes() {
    let mut writer = BitWriter::new();
    writer.push_varint32(-1);
    writer.push_varint32(1);
    writer.push_varint32(i32::MIN);
    let bytes = writer.finish();
    assert_eq!(&bytes[..2], &[1, 2]);
    let mut reader = BitReader::new(&bytes);
    assert_eq!(reader.read_varint32().unwrap(), -1);
    assert_eq!(reader.read_varint32().unwrap(), 1);
    assert_eq!(reader.read_varint32().unwrap(), i32::MIN);
}

#[test]
fn c_strings_and_bytes_read_back() {
    let mut writer = BitWriter::new();
    writer.push_bool(false);
    writer.push_c_string("source2");
    writer.push_bytes(&[1, 2, 3]);
    let bytes = writer.finish();
    let mut reader = BitReader::new(&bytes);
    assert!(!reader.read_bool().unwrap());
    assert_eq!(reader.read_string().unwrap(), "source2");
    let mut out = [0u8; 3];
    reader.read_bytes(&mut out).unwrap();
    assert_eq!(out, [1, 2, 3]);
}
