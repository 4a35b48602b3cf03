use std::collections::BTreeSet;

use pbdems2::demo::{command, Demo, COMPRESSED_FLAG, HEADER_SIZE, MAGIC};
use pbdems2::inspect::{
    command_name, inspect_demo, signed_difference, tick_range, usize_to_u64, HeaderInfo, TickRange,
};
use pbdems2::render::{
    command_counts_text, commands_text, index_text, summary_head_text, validation_text,
};
use pbdems2::Error;
use snap::raw::Encoder;

fn push_varint(mut value: u32, output: &mut Vec<u8>) {
    loop {
        let mut byte = (value & 0x7f) as u8;
        value >>= 7;
        if value != 0 {
            byte |= 0x80;
        }
        output.push(byte);
        if value == 0 {
            break;
        }
    }
}

fn push_command(output: &mut Vec<u8>, id: i32, tick: i32, body: &[u8], compressed: bool) {
    let raw = u32::try_from(id).expect("non-negative command")
        | if compressed { COMPRESSED_FLAG } else { 0 };
    let encoded = if compressed {
        Encoder::new().compress_vec(body).expect("compress fixture")
    } else {
        body.to_vec()
    };
    push_varint(raw, output);
    push_varint(tick as u32, output);
    push_varint(encoded.len() as u32, output);
    output.extend_from_slice(&encoded);
}

fn fixture() -> Vec<u8> {
    let mut data = Vec::from(MAGIC);
    data.resize(HEADER_SIZE, 0);
    push_command(&mut data, command::FILE_HEADER, -1, b"metadata", false);
    push_command(&mut data, command::SYNC_TICK, 0, b"", false);
    push_command(&mut data, command::PACKET, 10, &[b'a'; 128], true);
    push_command(&mut data, command::FULL_PACKET, 20, b"keyframe", false);
    let spawn_groups_offset = data.len();
    push_command(&mut data, command::SPAWN_GROUPS, 20, b"spawn", false);
    push_command(&mut data, command::STOP, 20, b"", false);
    let file_info_offset = data.len();
    push_command(&mut data, command::FILE_INFO, 20, b"info", false);
    push_command(&mut data, 63, 21, b"trailing", false);
    data[8..12].copy_from_slice(&(file_info_offset as u32).to_le_bytes());
    data[12..16].copy_from_slice(&(spawn_groups_offset as u32).to_le_bytes());
    data
}

#[test]
fn inspects_structure_sizes_ticks_and_seek_points() {
    let data = fixture();
    let report = inspect_demo(Demo::new(&data).expect("valid demo")).expect("valid bodies");

    assert_eq!(report.command_count(), 8);
    assert_eq!(
        report.header.file_info_offset,
        Some(report.commands[6].offset)
    );
    assert_eq!(
        report.header.spawn_groups_offset,
        Some(report.commands[4].offset)
    );
    assert_eq!(
        report.tick_range,
        Some(TickRange {
            first: 0,
            last: 21,
            distinct: 4,
        })
    );
    assert_eq!(
        report.playback_tick_range,
        Some(TickRange {
            first: 10,
            last: 20,
            distinct: 2,
        })
    );
    assert_eq!(report.sync_points.len(), 1);
    assert_eq!(report.full_packet_seek_points.len(), 1);
    assert_eq!(report.first_stop_command, Some(5));
    assert_eq!(report.commands_after_stop, 2);
    assert_eq!(report.unknown_commands, 1);
    assert_eq!(report.commands[2].decoded_size, 128);
    assert!(report.commands[2].compressed);
    assert!(report.compression.compressed_bytes_saved > 0);
}

#[test]
fn reports_empty_tick_and_compression_ranges() {
    let mut data = Vec::from(MAGIC);
    data.resize(HEADER_SIZE, 0);
    push_command(&mut data, command::STOP, -1, b"", false);
    let report = inspect_demo(Demo::new(&data).expect("valid demo")).expect("valid body");

    assert_eq!(report.tick_range, None);
    assert_eq!(report.playback_tick_range, None);
    assert_eq!(
        report.header,
        HeaderInfo {
            file_info_offset: None,
            spawn_groups_offset: None,
        }
    );
    assert_eq!(report.compression.compressed_decoded_bytes, 0);
    assert_eq!(report.compression.compressed_commands, 0);
    assert!(summary_head_text(&report).contains("ticks: none"));
}

#[test]
fn renders_each_human_readable_view() {
    let data = fixture();
    let report = inspect_demo(Demo::new(&data).expect("valid demo")).expect("valid bodies");

    let summary = summary_head_text(&report) + &command_counts_text(&report);
    assert!(summary.contains("status: valid PBDEMS2"));
    assert!(summary.contains("file-info offset:"));
    assert!(summary.contains("spawn-groups offset:"));
    assert!(summary.contains("FullPacket"));

    let commands = commands_text(&report);
    assert!(commands.contains("encoded"));
    assert!(commands.contains("Packet"));

    let index = index_text(&report);
    assert!(index.contains("resume offset"));
    assert!(index.contains("full-packet seek points"));
}

#[test]
fn text_views_align_their_columns() {
    let data = fixture();
    let report = inspect_demo(Demo::new(&data).expect("valid demo")).expect("valid bodies");
    let commands = commands_text(&report);
    let mut lines = commands.lines();
    let heading = format!(
        "{:>6} {:<20} {:>4} {:>10} {:>12} {:>8} {:>8} {:>5}",
        "index", "type", "id", "tick", "offset", "encoded", "decoded", "comp"
    );
    assert_eq!(lines.next(), Some(heading.as_str()));
    let first = format!(
        "{:>6} {:<20} {:>4} {:>10} {:>12} {:>8} {:>8} {:>5}",
        0, "FileHeader", 1, -1, 16, 8, 8, "no"
    );
    assert_eq!(lines.next(), Some(first.as_str()));
    assert_eq!(commands.lines().count(), 9);

    let index = index_text(&report);
    assert_eq!(
        index.lines().next(),
        Some("playback ticks: 10..=20 (2 distinct)")
    );
    assert!(index.contains(&format!(
        "  tick {:>10}  command offset {:>12}  resume offset {:>12}",
        0, report.sync_points[0].offset, report.sync_points[0].resume_offset
    )));

    let counts = command_counts_text(&report);
    assert!(counts.starts_with("command counts:\n"));
    assert!(counts.contains(&format!("  {:>3} {:<20} {}\n", 13, "FullPacket", 1)));
    assert!(counts.contains(&format!("  {:>3} {:<20} {}\n", 63, "Unknown", 1)));

    let head = summary_head_text(&report);
    assert!(head.contains("commands: 8\n"));
    assert!(head.contains("first stop: command 5 (2 command(s) follow it)\n"));
    assert!(head.contains("ticks: 0..=21 (4 distinct)\n"));
    assert!(head.contains(&format!("file-info offset: {}\n", report.commands[6].offset)));

    assert_eq!(
        validation_text(&report),
        format!(
            "valid PBDEMS2: {} bytes, 8 commands, file-info offset {}, spawn-groups offset {}\n",
            data.len(),
            report.commands[6].offset,
            report.commands[4].offset
        )
    );
}

#[test]
fn names_every_standard_command_and_unknown_values() {
    let names = (command::STOP..=command::RECOVERY)
        .map(command_name)
        .collect::<BTreeSet<_>>();
    assert_eq!(names.len(), 19);
    assert_eq!(command_name(99), "Unknown");
}

#[test]
fn report_totals_and_counts_follow_the_commands() {
    let data = fixture();
    let report = inspect_demo(Demo::new(&data).expect("valid demo")).expect("valid bodies");
    let encoded: usize = report.commands.iter().map(|c| c.encoded_size).sum();
    let decoded: usize = report.commands.iter().map(|c| c.decoded_size).sum();
    let headers: usize = report.commands.iter().map(|c| c.header_size).sum();
    assert_eq!(report.compression.total_encoded_bytes, encoded as u64);
    assert_eq!(report.compression.total_decoded_bytes, decoded as u64);
    assert_eq!(report.command_header_bytes, headers as u64);
    assert_eq!(report.file_size, data.len());
    assert_eq!(report.file_header_size, 16);
    assert_eq!(
        headers + encoded + HEADER_SIZE,
        data.len(),
        "commands cover the file"
    );
    let counted: Vec<(i32, usize)> = report
        .command_counts
        .iter()
        .map(|c| (c.command, c.count))
        .collect();
    assert_eq!(
        counted,
        vec![(0, 1), (1, 1), (2, 1), (3, 1), (7, 1), (13, 1), (15, 1), (63, 1)]
    );
    assert_eq!(report.command_counts[7].command_type, "Unknown");
    assert_eq!(report.commands[3].command_type, "FullPacket");
    let sync = report.sync_points[0];
    assert_eq!(sync.tick, 0);
    assert_eq!(sync.resume_offset, report.commands[1].end_offset);
    assert_eq!(report.full_packet_seek_points[0].offset, report.commands[3].offset);
    assert_eq!(report.full_packet_seek_points[0].tick, 20);
    assert_eq!(report.compression.compressed_commands, 1);
    assert_eq!(report.compression.compressed_decoded_bytes, 128);
    assert_eq!(
        report.compression.compressed_bytes_saved,
        128 - report.compression.compressed_encoded_bytes as i64
    );
}

#[test]
fn repeated_commands_are_counted_once_per_identifier() {
    let mut data = Vec::from(MAGIC);
    data.resize(HEADER_SIZE, 0);
    for tick in [3, 1, 3, 2] {
        push_command(&mut data, command::PACKET, tick, b"p", false);
    }
    push_command(&mut data, command::USER_CMD, 1, b"", false);
    let report = inspect_demo(Demo::new(&data).unwrap()).unwrap();
    assert_eq!(report.command_counts.len(), 2);
    assert_eq!(report.command_counts[0].command, command::PACKET);
    assert_eq!(report.command_counts[0].count, 4);
    assert_eq!(report.command_counts[1].count, 1);
    assert_eq!(
        report.tick_range,
        Some(TickRange {
            first: 1,
            last: 3,
            distinct: 3
        })
    );
    assert_eq!(report.first_stop_command, None);
    assert_eq!(report.commands_after_stop, 0);
    assert_eq!(report.playback_tick_range, None);
}

#[test]
fn a_corrupt_compressed_body_fails_inspection() {
    let mut data = Vec::from(MAGIC);
    data.resize(HEADER_SIZE, 0);
    push_command(&mut data, command::PACKET, 1, b"ok", false);
    push_varint((command::PACKET as u32) | COMPRESSED_FLAG, &mut data);
    push_varint(2, &mut data);
    push_varint(3, &mut data);
    data.extend_from_slice(&[0xff, 0xff, 0xff]);
    let error = inspect_demo(Demo::new(&data).unwrap()).expect_err("corrupt body");
    match error {
        Error::Command { offset, command: c, tick, source } => {
            assert_eq!(offset, HEADER_SIZE + 5);
            assert_eq!(c, Some(command::PACKET));
            assert_eq!(tick, Some(2));
            assert!(matches!(*source, Error::Decompress(_)));
        }
        other => panic!("unexpected error {other:?}"),
    }
}

#[test]
fn a_truncated_stream_fails_the_index_first() {
    let mut data = Vec::from(MAGIC);
    data.resize(HEADER_SIZE, 0);
    push_command(&mut data, command::SYNC_TICK, 0, b"", false);
    data.extend_from_slice(&[command::PACKET as u8, 1, 5, 0]);
    assert!(matches!(
        inspect_demo(Demo::new(&data).unwrap()),
        Err(Error::Command { offset, .. }) if offset == HEADER_SIZE + 3
    ));
}

#[test]
fn tick_ranges_ignore_order_and_repeats() {
    assert_eq!(tick_range(&[]), None);
    assert_eq!(
        tick_range(&[5, -2, 5, 9, 0]),
        Some(TickRange {
            first: -2,
            last: 9,
            distinct: 4
        })
    );
}

#[test]
fn signed_difference_saturates() {
    assert_eq!(signed_difference(10, 3), 7);
    assert_eq!(signed_difference(3, 10), -7);
    assert_eq!(signed_difference(u64::MAX, 0), i64::MAX);
    assert_eq!(signed_difference(0, u64::MAX), i64::MIN);
    assert_eq!(usize_to_u64(42), 42);
}
