use pbdems2::demo::{
    command, read_cmd_header, verify_header, CmdHeader, Demo, DemoHeader, HEADER_SIZE, MAGIC,
};
use pbdems2::io::ByteReader;
use pbdems2::{DecodeLimits, Error};

fn command_bytes(raw_command: u8, tick: u8, body: &[u8]) -> Vec<u8> {
    let mut bytes = vec![raw_command, tick, body.len() as u8];
    bytes.extend_from_slice(body);
    bytes
}

fn demo_bytes(commands: &[u8]) -> Vec<u8> {
    let mut bytes = Vec::from(MAGIC);
    bytes.extend_from_slice(&[0; HEADER_SIZE - MAGIC.len()]);
    bytes.extend_from_slice(commands);
    bytes
}

#[test]
fn parses_and_bounds_checks_fixed_header_offsets() {
    let mut data = Vec::from(MAGIC);
    data.resize(64, 0);
    data[8..12].copy_from_slice(&32_u32.to_le_bytes());
    data[12..16].copy_from_slice(&48_u32.to_le_bytes());

    let header = Demo::new(&data).expect("valid header").header();
    assert_eq!(header.file_info_offset(), Some(32));
    assert_eq!(header.spawn_groups_offset(), Some(48));

    data[8..12].copy_from_slice(&8_u32.to_le_bytes());
    assert!(matches!(
        DemoHeader::parse(&data),
        Err(Error::Parse { context }) if context.contains("file-info header offset 8")
    ));

    data[8..12].fill(0);
    let end_offset = data.len() as u32;
    data[12..16].copy_from_slice(&end_offset.to_le_bytes());
    assert!(matches!(
        DemoHeader::parse(&data),
        Err(Error::Parse { context }) if context.contains("spawn-groups header offset 64")
    ));
}

#[test]
fn zero_header_offsets_are_absent() {
    let mut data = Vec::from(MAGIC);
    data.resize(HEADER_SIZE, 0);
    let header = DemoHeader::parse(&data).expect("valid header");
    assert_eq!(header.file_info_offset(), None);
    assert_eq!(header.spawn_groups_offset(), None);
}

#[test]
fn validates_header() {
    let mut data = Vec::from(MAGIC);
    data.extend_from_slice(&[0; 8]);
    assert!(verify_header(&data, 16).is_ok());
    assert!(matches!(
        verify_header(b"NOTADEMO--------", 16),
        Err(Error::InvalidMagic { .. })
    ));
    assert!(verify_header(&MAGIC, 16).is_err());
}

#[test]
fn reads_command_header() {
    let mut reader = ByteReader::new(&[7, 42, 3]);
    let header = read_cmd_header(&mut reader, 1 << 31).unwrap();
    assert_eq!(header, CmdHeader::new(7, 42, false, 3));
}

#[test]
fn iterates_borrowed_command_frames() {
    let data = demo_bytes(&command_bytes(command::PACKET as u8, 42, b"abc"));
    let demo = Demo::new(&data).expect("valid fixture");
    let frame = demo
        .commands()
        .next()
        .expect("one frame")
        .expect("valid frame");
    assert_eq!(frame.offset(), HEADER_SIZE);
    assert_eq!(frame.header().cmd, command::PACKET);
    assert_eq!(frame.header().tick, 42);
    assert_eq!(frame.encoded_body(), b"abc");
    assert_eq!(frame.end_offset(), data.len());
}

#[test]
fn indexes_sync_ticks_and_full_packets() {
    let mut commands = command_bytes(command::SYNC_TICK as u8, 0, &[]);
    let expected_start = HEADER_SIZE + commands.len();
    commands.extend(command_bytes(command::PACKET as u8, 1, &[]));
    let full_offset = HEADER_SIZE + commands.len();
    commands.extend(command_bytes(command::FULL_PACKET as u8, 2, &[]));
    commands.extend(command_bytes(command::PACKET as u8, 2, &[]));
    commands.extend(command_bytes(command::STOP as u8, 3, &[]));

    let data = demo_bytes(&commands);
    let index = Demo::new(&data)
        .expect("valid fixture")
        .index()
        .expect("valid index");
    assert_eq!(index.stream_start(), Some(expected_start));
    assert_eq!(index.distinct_ticks(), [1, 2]);
    assert_eq!(index.full_packets().len(), 1);
    assert_eq!(index.full_packets()[0].offset(), full_offset);
    assert_eq!(index.full_packet_at_or_before(1), None);
    assert_eq!(
        index.full_packet_at_or_before(2).map(|value| value.tick()),
        Some(2)
    );
}

#[test]
fn rejects_truncated_and_oversized_bodies() {
    let truncated = demo_bytes(&[command::PACKET as u8, 1, 4, 1]);
    assert!(Demo::new(&truncated)
        .expect("header is valid")
        .commands()
        .next()
        .expect("an error item")
        .is_err());

    let limits = DecodeLimits::default().with_max_command_body_bytes(2);
    let oversized = demo_bytes(&command_bytes(command::PACKET as u8, 1, b"abc"));
    assert!(Demo::with_limits(&oversized, limits)
        .expect("header is valid")
        .commands()
        .next()
        .expect("an error item")
        .is_err());
}

#[test]
fn an_error_ends_the_command_iteration() {
    let mut commands = vec![command::PACKET as u8, 1, 9, 1];
    commands.extend(command_bytes(command::STOP as u8, 1, &[]));
    let data = demo_bytes(&commands);
    let demo = Demo::new(&data).expect("header is valid");
    let mut it = demo.commands();
    match it.next() {
        Some(Err(Error::Command {
            offset,
            command,
            tick,
            source,
        })) => {
            assert_eq!(offset, HEADER_SIZE);
            assert_eq!(command, Some(command::PACKET));
            assert_eq!(tick, Some(1));
            assert!(matches!(*source, Error::Overflow { .. }));
        }
        _ => panic!("expected a command error"),
    }
    assert!(it.next().is_none());
}

#[test]
fn compressed_bodies_are_decoded() {
    let body = [b'z'; 64];
    let compressed = snap::raw::Encoder::new().compress_vec(&body).unwrap();
    let mut commands = vec![
        (command::PACKET as u8) | 64,
        5,
        compressed.len() as u8,
    ];
    commands.extend_from_slice(&compressed);
    let data = demo_bytes(&commands);
    let demo = Demo::new(&data).expect("valid fixture");
    let frame = demo.commands().next().unwrap().unwrap();
    assert!(frame.header().compressed);
    assert_eq!(frame.header().cmd, command::PACKET);
    let mut out = vec![1, 2, 3];
    frame.decode_body(&mut out).expect("valid snappy body");
    assert_eq!(out, body.to_vec());
}

#[test]
fn commands_from_rejects_offsets_outside_the_stream() {
    let data = demo_bytes(&command_bytes(command::STOP as u8, 0, &[]));
    let demo = Demo::new(&data).unwrap();
    assert!(matches!(
        demo.commands_from(3),
        Err(Error::Parse { context }) if context == "command offset 3 outside valid range 16..=19"
    ));
    let mut it = demo.commands_from(HEADER_SIZE).unwrap();
    assert_eq!(it.next().unwrap().unwrap().header().cmd, command::STOP);
    assert!(demo.commands_from(data.len()).unwrap().next().is_none());
}

#[test]
fn header_parse_rejects_bad_magic_and_short_files() {
    assert!(matches!(
        Demo::new(b"NOTADEMO\0\0\0\0\0\0\0\0"),
        Err(Error::InvalidMagic { .. })
    ));
    assert!(Demo::new(&MAGIC).is_err());
}

#[test]
fn reported_offsets_restart_the_stream() {
    let mut commands = command_bytes(command::SYNC_TICK as u8, 0, &[]);
    commands.extend(command_bytes(command::FULL_PACKET as u8, 4, b"kf"));
    commands.extend(command_bytes(command::PACKET as u8, 5, b"p"));
    commands.extend(command_bytes(command::STOP as u8, 5, &[]));
    let data = demo_bytes(&commands);
    let demo = Demo::new(&data).unwrap();
    let index = demo.index().unwrap();

    let resume = index.stream_start().expect("synchronized");
    let mut it = demo.commands_from(resume).expect("valid resume offset");
    let frame = it.next().unwrap().unwrap();
    assert_eq!(frame.header().cmd, command::FULL_PACKET);
    assert_eq!(frame.offset(), resume);
    assert_eq!(frame.index(), 0);

    let keyframe = index.full_packet_at_or_before(10).expect("a keyframe");
    let again = demo
        .commands_from(keyframe.offset())
        .expect("valid keyframe offset")
        .next()
        .unwrap()
        .unwrap();
    assert_eq!(again.header().tick, 4);
    assert_eq!(again.encoded_body(), b"kf");

    let mut previous_end = HEADER_SIZE;
    let mut all = demo.commands();
    while let Some(frame) = all.next() {
        let frame = frame.unwrap();
        assert_eq!(frame.offset(), previous_end);
        assert!(demo.commands_from(frame.offset()).is_ok());
        previous_end = frame.end_offset();
    }
    assert_eq!(previous_end, data.len());
}

#[test]
fn distinct_ticks_list_each_tick_once_in_first_appearance_order() {
    let mut commands = command_bytes(command::SYNC_TICK as u8, 0, &[]);
    for tick in [1u8, 2, 1, 3, 2, 3] {
        commands.extend(command_bytes(command::PACKET as u8, tick, &[]));
    }
    let data = demo_bytes(&commands);
    let index = Demo::new(&data).unwrap().index().unwrap();
    assert_eq!(index.distinct_ticks(), [1, 2, 3]);
}

#[test]
fn resuming_at_a_frame_yields_the_rest_renumbered() {
    let mut commands = command_bytes(command::SYNC_TICK as u8, 0, &[]);
    commands.extend(command_bytes(command::PACKET as u8, 1, b"a"));
    commands.extend(command_bytes(command::PACKET as u8, 2, b"bc"));
    commands.extend(command_bytes(command::PACKET as u8, 3, b"def"));
    let data = demo_bytes(&commands);
    let demo = Demo::new(&data).unwrap();
    let mut all = Vec::new();
    let mut it = demo.commands();
    while let Some(frame) = it.next() {
        all.push(frame.unwrap());
    }
    assert_eq!(all.len(), 4);
    let mut resumed = Vec::new();
    let mut it = demo.commands_from(all[2].offset()).unwrap();
    while let Some(frame) = it.next() {
        resumed.push(frame.unwrap());
    }
    assert_eq!(resumed.len(), 2);
    for (k, frame) in resumed.iter().enumerate() {
        let earlier = &all[2 + k];
        assert_eq!(frame.index(), k);
        assert_eq!(earlier.index(), 2 + k);
        assert_eq!(frame.offset(), earlier.offset());
        assert_eq!(frame.end_offset(), earlier.end_offset());
        assert_eq!(frame.header(), earlier.header());
        assert_eq!(frame.encoded_body(), earlier.encoded_body());
    }
}

#[test]
fn corrupt_snappy_body_leaves_the_buffer_at_the_declared_length() {
    // Declared length 5, then a copy whose offset points before the output.
    let body = [0x05, 0x01, 0x00];
    let mut commands = vec![(command::PACKET as u8) | 64, 5, body.len() as u8];
    commands.extend_from_slice(&body);
    let data = demo_bytes(&commands);
    let demo = Demo::new(&data).expect("valid fixture");
    let frame = demo.commands().next().unwrap().unwrap();
    let mut out = vec![1, 2, 3];
    assert!(matches!(frame.decode_body(&mut out), Err(Error::Command { .. })));
    assert_eq!(out.len(), 5);

    // A body whose declared length cannot be read leaves the buffer empty.
    let body = [0xFF];
    let mut commands = vec![(command::PACKET as u8) | 64, 5, body.len() as u8];
    commands.extend_from_slice(&body);
    let data = demo_bytes(&commands);
    let demo = Demo::new(&data).expect("valid fixture");
    let frame = demo.commands().next().unwrap().unwrap();
    let mut out = vec![1, 2, 3];
    assert!(frame.decode_body(&mut out).is_err());
    assert!(out.is_empty());
}

#[test]
fn index_keeps_only_frames_between_sync_and_stop() {
    let mut commands = command_bytes(command::FULL_PACKET as u8, 1, b"x");
    commands.extend(command_bytes(command::SYNC_TICK as u8, 2, &[]));
    commands.extend(command_bytes(command::FULL_PACKET as u8, 3, b"y"));
    commands.extend(command_bytes(command::PACKET as u8, 4, &[]));
    commands.extend(command_bytes(command::STOP as u8, 5, &[]));
    commands.extend(command_bytes(command::FULL_PACKET as u8, 6, b"z"));
    let data = demo_bytes(&commands);
    let index = Demo::new(&data).unwrap().index().unwrap();
    let keyframes: Vec<(usize, i32)> =
        index.full_packets().iter().map(|p| (p.offset(), p.tick())).collect();
    assert_eq!(keyframes, vec![(HEADER_SIZE + 4 + 3, 3)]);
    assert_eq!(index.distinct_ticks(), [3, 4]);
}

#[test]
fn command_header_reads_multi_byte_varints() {
    // raw command 300 with the compression flag, tick 200, size 1.
    let raw: u32 = 300 | 64;
    let bytes = [
        (raw & 0x7f) as u8 | 0x80,
        (raw >> 7) as u8,
        200 & 0x7f | 0x80,
        1,
        1,
        0xEE,
    ];
    let mut reader = ByteReader::new(&bytes);
    let header = read_cmd_header(&mut reader, 64).unwrap();
    assert_eq!(header.cmd, 300);
    assert_eq!(header.tick, 200);
    assert!(header.compressed);
    assert_eq!(header.body_size, 1);
    assert_eq!(reader.position(), 5);
}
