use pbdems2::io::BitWriter;
use pbdems2::{DecodeLimits, Error, PacketMessageFrame, PacketMessageIter};

fn push_message(writer: &mut BitWriter, message_type: u32, payload: &[u8]) {
    writer.push_ubitvar(message_type);
    writer.push_uvarint32(payload.len() as u32);
    for &byte in payload {
        writer.push_bits(u64::from(byte), 8);
    }
}

fn all_frames(data: &[u8]) -> Result<Vec<PacketMessageFrame<'_>>, Error> {
    let mut messages = PacketMessageIter::new(data);
    let mut frames = Vec::new();
    while let Some(frame) = messages.next() {
        frames.push(frame?);
    }
    Ok(frames)
}

#[test]
fn iterates_unaligned_and_aligned_payloads_without_allocating() {
    let mut writer = BitWriter::default();
    push_message(&mut writer, 7, b"abc");
    push_message(&mut writer, 72, b"de");
    let data = writer.finish();

    let frames = all_frames(&data).expect("valid packet");
    assert_eq!(frames.len(), 2);
    assert_eq!(frames[0].index(), 0);
    assert_eq!(frames[0].message_type(), 7);
    assert_eq!(frames[0].bit_offset(), 0);
    assert_eq!(frames[0].payload_bit_offset(), 14);
    assert_eq!(frames[0].encoded_size(), 3);
    assert_eq!(frames[0].payload(), None);

    let mut payload = Vec::new();
    assert_eq!(
        frames[0]
            .payload_or_copy(&mut payload)
            .expect("copy unaligned payload"),
        b"abc"
    );
    assert_eq!(payload, b"abc");

    assert_eq!(frames[1].message_type(), 72);
    assert_eq!(frames[1].payload(), Some(&b"de"[..]));
    assert_eq!(
        frames[1]
            .payload_or_copy(&mut payload)
            .expect("borrow aligned payload"),
        b"de"
    );
    assert_eq!(payload, b"abc");
}

#[test]
fn reports_truncated_payload_with_message_context_and_stops() {
    let mut writer = BitWriter::default();
    writer.push_ubitvar(7);
    writer.push_uvarint32(4);
    writer.push_bits(u64::from(b'x'), 8);
    let data = writer.finish();
    let mut messages = PacketMessageIter::new(&data);

    assert!(matches!(
        messages.next(),
        Some(Err(Error::PacketMessage {
            bit_offset: 0,
            message_type: Some(7),
            source,
        })) if matches!(*source, Error::Overflow { .. })
    ));
    assert!(messages.next().is_none());
}

#[test]
fn applies_packet_message_size_limits_before_payload_reads() {
    let mut writer = BitWriter::default();
    push_message(&mut writer, 3, b"abc");
    let data = writer.finish();
    let limits = DecodeLimits::default().with_max_packet_message_bytes(2);

    assert!(matches!(
        PacketMessageIter::with_limits(&data, limits).next(),
        Some(Err(Error::PacketMessage { source, .. }))
            if matches!(*source, Error::LimitExceeded {
                resource: "inner packet message",
                limit: 2,
                actual: 3,
            })
    ));
}

#[test]
fn ignores_one_final_byte_of_packet_padding() {
    assert!(PacketMessageIter::new(&[0xff]).next().is_none());
}

#[test]
fn copy_payload_replaces_the_scratch_contents() {
    let mut writer = BitWriter::default();
    push_message(&mut writer, 5, b"xyz");
    let data = writer.finish();
    let frames = all_frames(&data).expect("valid packet");
    let mut scratch = vec![9, 9, 9, 9];
    frames[0].copy_payload(&mut scratch).expect("payload fits");
    assert_eq!(scratch, b"xyz");
    assert_eq!(frames[0].end_bit_offset(), 14 + 24);
}
