use pbdems2::io::{BitReader, ByteReader};

#[test]
fn bit_reader_exposes_the_combined_api() {
    let bytes = [
        0x34, 0x12, 0x78, 0x56, 0x34, 0x12, 0xef, 0xcd, 0xab, 0x90, 0x78, 0x56, 0x34, 0x12,
    ];
    let mut reader = BitReader::new(&bytes);

    assert_eq!(reader.peek_bits(16).unwrap(), 0x1234);
    assert_eq!(reader.position(), 0);
    assert_eq!(reader.read_u16().unwrap(), 0x1234);
    assert_eq!(reader.read_u32().unwrap(), 0x1234_5678);
    assert_eq!(reader.read_u64().unwrap(), 0x1234_5678_90ab_cdef);
}

#[test]
fn byte_reader_exposes_signed_and_unsigned_fixed_width_reads() {
    let bytes = [0x34, 0x12, 0xfe, 0xff, 0xff, 0xff];
    let mut reader = ByteReader::new(&bytes);
    assert_eq!(reader.read_u16().unwrap(), 0x1234);
    assert_eq!(reader.read_i32().unwrap(), -2);
}

#[test]
fn bit_reader_reads_a_null_terminated_string() {
    let mut reader = BitReader::new(b"source2\0remaining");
    assert_eq!(reader.read_string().unwrap(), "source2");
}

#[test]
fn reads_past_the_end_report_the_bits_needed() {
    let mut reader = BitReader::new(&[0xff]);
    assert!(matches!(
        reader.read_bits(9),
        Err(pbdems2::Error::Overflow {
            needed: 9,
            available: 8
        })
    ));
    assert_eq!(reader.position(), 0);
    let mut bytes = ByteReader::new(&[1, 2]);
    assert!(bytes.read_u32().is_err());
    assert_eq!(bytes.read_u8().unwrap(), 1);
}

#[test]
fn byte_reader_reads_varints_and_borrowed_slices() {
    let mut reader = ByteReader::new(&[0xac, 0x02, b'x', b'y', b'z']);
    assert_eq!(reader.read_uvarint32().unwrap(), 300);
    assert_eq!(reader.read_bytes(2).unwrap(), b"xy");
    assert_eq!(reader.remaining(), 1);
    assert!(!reader.is_empty());
}
