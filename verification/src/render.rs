//! Plain-text views of an inspection report: aligned columns, one line per
//! item, each line ending in a newline.
//!
//! Numbers are written in decimal; a column aligned to a width is padded
//! with spaces to at least that many characters.
use vstd::prelude::*;

use crate::inspect::{CommandCount, CommandInfo, Inspection, SeekPoint, SyncPoint, TickRange};
use crate::text::{digits, push_decimal, push_signed, signed_digits};

verus! {

/// `n` spaces.
pub open spec fn spaces(n: nat) -> Seq<char> {
    Seq::new(n, |i: int| ' ')
}

/// `s` padded with spaces on the left to at least `width` characters.
pub open spec fn align_right(s: Seq<char>, width: nat) -> Seq<char> {
    if s.len() < width {
        spaces((width - s.len()) as nat) + s
    } else {
        s
    }
}

/// `s` padded with spaces on the right to at least `width` characters.
pub open spec fn align_left(s: Seq<char>, width: nat) -> Seq<char> {
    if s.len() < width {
        s + spaces((width - s.len()) as nat)
    } else {
        s
    }
}

/// Append `n` spaces.
fn push_spaces(out: &mut String, n: usize)
    ensures
        final(out)@ == old(out)@ + spaces(n as nat),
{
    let mut i: usize = 0;
    while i < n
        invariant
            i <= n,
            out@ == old(out)@ + spaces(i as nat),
        decreases n - i,
    {
        proof {
            reveal_strlit(" ");
        }
        out.append(" ");
        i = i + 1;
        assert(out@ =~= old(out)@ + spaces(i as nat));
    }
}

/// Number of characters of a string.
fn char_count(s: &str) -> (r: usize)
    ensures
        r == s@.len(),
{
    let chars = crate::chars::chars_of(s);
    chars.len()
}

/// Append `s` aligned to the right of a column of `width` characters.
fn push_right(out: &mut String, s: &str, width: usize)
    ensures
        final(out)@ == old(out)@ + align_right(s@, width as nat),
{
    let n = char_count(s);
    if n < width {
        push_spaces(out, width - n);
    }
    out.append(s);
    assert(out@ =~= old(out)@ + align_right(s@, width as nat));
}

/// Append `s` aligned to the left of a column of `width` characters.
fn push_left(out: &mut String, s: &str, width: usize)
    ensures
        final(out)@ == old(out)@ + align_left(s@, width as nat),
{
    let n = char_count(s);
    out.append(s);
    if n < width {
        push_spaces(out, width - n);
    }
    assert(out@ =~= old(out)@ + align_left(s@, width as nat));
}

/// Append the decimal digits of `n`, right-aligned in `width` characters.
fn push_number_right(out: &mut String, n: u64, width: usize)
    ensures
        final(out)@ == old(out)@ + align_right(digits(n as nat), width as nat),
{
    let mut text = String::new();
    push_decimal(&mut text, n);
    assert(text@ =~= digits(n as nat));
    push_right(out, text.as_str(), width);
}

/// Append a signed decimal number, right-aligned in `width` characters.
fn push_signed_right(out: &mut String, n: i64, width: usize)
    ensures
        final(out)@ == old(out)@ + align_right(signed_digits(n as int), width as nat),
{
    let mut text = String::new();
    push_signed(&mut text, n);
    assert(text@ =~= signed_digits(n as int));
    push_right(out, text.as_str(), width);
}

/// A header offset, or `none`.
pub open spec fn offset_text(offset: Option<usize>) -> Seq<char> {
    match offset {
        Some(o) => digits(o as nat),
        None => "none"@,
    }
}

fn push_offset(out: &mut String, offset: Option<usize>)
    ensures
        final(out)@ == old(out)@ + offset_text(offset),
{
    match offset {
        Some(o) => push_decimal(out, o as u64),
        None => out.append("none"),
    }
}

/// The line naming a header offset.
pub open spec fn header_offset_line(label: Seq<char>, offset: Option<usize>) -> Seq<char> {
    label + ": "@ + offset_text(offset) + "\n"@
}

fn push_header_offset(out: &mut String, label: &str, offset: Option<usize>)
    ensures
        final(out)@ == old(out)@ + header_offset_line(label@, offset),
{
    out.append(label);
    out.append(": ");
    push_offset(out, offset);
    out.append("\n");
    assert(out@ =~= old(out)@ + header_offset_line(label@, offset));
}

/// The line describing a tick range, or `none`.
pub open spec fn tick_range_line(label: Seq<char>, range: Option<TickRange>) -> Seq<char> {
    match range {
        Some(r) => label + ": "@ + signed_digits(r.first as int) + "..="@ + signed_digits(r.last as int) + " ("@
            + digits(r.distinct as nat) + " distinct)\n"@,
        None => label + ": none\n"@,
    }
}

fn push_tick_range(out: &mut String, label: &str, range: Option<TickRange>)
    ensures
        final(out)@ == old(out)@ + tick_range_line(label@, range),
{
    out.append(label);
    match range {
        Some(r) => {
            out.append(": ");
            push_signed(out, r.first as i64);
            out.append("..=");
            push_signed(out, r.last as i64);
            out.append(" (");
            push_decimal(out, r.distinct as u64);
            out.append(" distinct)\n");
        },
        None => {
            out.append(": none\n");
        },
    }
    assert(out@ =~= old(out)@ + tick_range_line(label@, range));
}

/// The one-line verdict on a valid file.
pub open spec fn validation_line(ins: Inspection) -> Seq<char> {
    "valid PBDEMS2: "@ + digits(ins.file_size as nat) + " bytes, "@ + digits(ins.commands@.len())
        + " commands, file-info offset "@ + offset_text(ins.header.file_info_offset)
        + ", spawn-groups offset "@ + offset_text(ins.header.spawn_groups_offset) + "\n"@
}

/// The one-line verdict on a valid file: its size, its number of commands
/// and its header offsets.
pub fn validation_text(ins: &Inspection) -> (r: String)
    ensures
        r@ == validation_line(*ins),
{
    let mut out = String::from_str("valid PBDEMS2: ");
    push_decimal(&mut out, ins.file_size as u64);
    out.append(" bytes, ");
    push_decimal(&mut out, ins.commands.len() as u64);
    out.append(" commands, file-info offset ");
    push_offset(&mut out, ins.header.file_info_offset);
    out.append(", spawn-groups offset ");
    push_offset(&mut out, ins.header.spawn_groups_offset);
    out.append("\n");
    assert(out@ =~= validation_line(*ins));
    out
}

/// The column headings of the command listing.
pub open spec fn command_heading() -> Seq<char> {
    align_right("index"@, 6) + " "@ + align_left("type"@, 20) + " "@ + align_right("id"@, 4) + " "@ + align_right(
        "tick"@,
        10,
    ) + " "@ + align_right("offset"@, 12) + " "@ + align_right("encoded"@, 8) + " "@ + align_right("decoded"@, 8)
        + " "@ + align_right("comp"@, 5) + "\n"@
}

/// `yes` or `no`.
pub open spec fn yes_no(b: bool) -> Seq<char> {
    if b {
        "yes"@
    } else {
        "no"@
    }
}

/// One row of the command listing.
pub open spec fn command_row(c: CommandInfo) -> Seq<char> {
    align_right(digits(c.index as nat), 6) + " "@ + align_left(c.command_type@, 20) + " "@ + align_right(
        signed_digits(c.command as int),
        4,
    ) + " "@ + align_right(signed_digits(c.tick as int), 10) + " "@ + align_right(digits(c.offset as nat), 12)
        + " "@ + align_right(digits(c.encoded_size as nat), 8) + " "@ + align_right(
        digits(c.decoded_size as nat),
        8,
    ) + " "@ + align_right(yes_no(c.compressed), 5) + "\n"@
}

/// The rows of the command listing.
pub open spec fn command_rows(cs: Seq<CommandInfo>) -> Seq<char>
    decreases cs.len(),
{
    if cs.len() == 0 {
        Seq::empty()
    } else {
        command_rows(cs.drop_last()) + command_row(cs.last())
    }
}

fn push_space(out: &mut String)
    ensures
        final(out)@ == old(out)@ + " "@,
{
    out.append(" ");
}

fn command_heading_text() -> (r: String)
    ensures
        r@ == command_heading(),
{
    let mut row = String::new();
    push_right(&mut row, "index", 6);
    assert(Seq::<char>::empty() + align_right("index"@, 6) =~= align_right("index"@, 6));
    push_space(&mut row);
    push_left(&mut row, "type", 20);
    push_space(&mut row);
    push_right(&mut row, "id", 4);
    push_space(&mut row);
    push_right(&mut row, "tick", 10);
    push_space(&mut row);
    push_right(&mut row, "offset", 12);
    push_space(&mut row);
    push_right(&mut row, "encoded", 8);
    push_space(&mut row);
    push_right(&mut row, "decoded", 8);
    push_space(&mut row);
    push_right(&mut row, "comp", 5);
    row.append("\n");
    row
}

fn command_row_text(c: &CommandInfo) -> (r: String)
    ensures
        r@ == command_row(*c),
{
    let mut row = String::new();
    push_number_right(&mut row, c.index as u64, 6);
    assert(Seq::<char>::empty() + align_right(digits(c.index as nat), 6) =~= align_right(digits(c.index as nat), 6));
    push_space(&mut row);
    push_left(&mut row, c.command_type, 20);
    push_space(&mut row);
    push_signed_right(&mut row, c.command as i64, 4);
    push_space(&mut row);
    push_signed_right(&mut row, c.tick as i64, 10);
    push_space(&mut row);
    push_number_right(&mut row, c.offset as u64, 12);
    push_space(&mut row);
    push_number_right(&mut row, c.encoded_size as u64, 8);
    push_space(&mut row);
    push_number_right(&mut row, c.decoded_size as u64, 8);
    push_space(&mut row);
    if c.compressed {
        push_right(&mut row, "yes", 5);
    } else {
        push_right(&mut row, "no", 5);
    }
    row.append("\n");
    row
}

/// The command listing: headings, then one row per command with its
/// index, type, identifier, tick, offset, sizes and compression.
pub fn commands_text(ins: &Inspection) -> (r: String)
    ensures
        r@ == command_heading() + command_rows(ins.commands@),
{
    let mut out = command_heading_text();
    let ghost head = out@;
    let mut i: usize = 0;
    while i < ins.commands.len()
        invariant
            i <= ins.commands@.len(),
            out@ == head + command_rows(ins.commands@.take(i as int)),
        decreases ins.commands@.len() - i,
    {
        let row = command_row_text(&ins.commands[i]);
        out.append(row.as_str());
        proof {
            assert(ins.commands@.take(i + 1).drop_last() =~= ins.commands@.take(i as int));
        }
        i = i + 1;
    }
    assert(ins.commands@.take(i as int) =~= ins.commands@);
    out
}

/// One sync point of the index listing.
pub open spec fn sync_row(p: SyncPoint) -> Seq<char> {
    "  tick "@ + align_right(signed_digits(p.tick as int), 10) + "  command offset "@ + align_right(
        digits(p.offset as nat),
        12,
    ) + "  resume offset "@ + align_right(digits(p.resume_offset as nat), 12) + "\n"@
}

/// The sync points of the index listing.
pub open spec fn sync_rows(ps: Seq<SyncPoint>) -> Seq<char>
    decreases ps.len(),
{
    if ps.len() == 0 {
        Seq::empty()
    } else {
        sync_rows(ps.drop_last()) + sync_row(ps.last())
    }
}

/// One keyframe of the index listing.
pub open spec fn seek_row(p: SeekPoint) -> Seq<char> {
    "  tick "@ + align_right(signed_digits(p.tick as int), 10) + "  command offset "@ + align_right(
        digits(p.offset as nat),
        12,
    ) + "\n"@
}

/// The keyframes of the index listing.
pub open spec fn seek_rows(ps: Seq<SeekPoint>) -> Seq<char>
    decreases ps.len(),
{
    if ps.len() == 0 {
        Seq::empty()
    } else {
        seek_rows(ps.drop_last()) + seek_row(ps.last())
    }
}

fn sync_row_text(p: SyncPoint) -> (r: String)
    ensures
        r@ == sync_row(p),
{
    let mut row = String::from_str("  tick ");
    push_signed_right(&mut row, p.tick as i64, 10);
    row.append("  command offset ");
    push_number_right(&mut row, p.offset as u64, 12);
    row.append("  resume offset ");
    push_number_right(&mut row, p.resume_offset as u64, 12);
    row.append("\n");
    row
}

fn seek_row_text(p: SeekPoint) -> (r: String)
    ensures
        r@ == seek_row(p),
{
    let mut row = String::from_str("  tick ");
    push_signed_right(&mut row, p.tick as i64, 10);
    row.append("  command offset ");
    push_number_right(&mut row, p.offset as u64, 12);
    row.append("\n");
    row
}

/// The index listing.
pub open spec fn index_listing(ins: Inspection) -> Seq<char> {
    tick_range_line("playback ticks"@, ins.playback_tick_range) + "sync-tick seek points:\n"@ + sync_rows(
        ins.sync_points@,
    ) + "full-packet seek points:\n"@ + seek_rows(ins.full_packet_seek_points@)
}

/// The playback tick range, then every sync point with the offset where
/// playback resumes, then every full-packet keyframe.
pub fn index_text(ins: &Inspection) -> (r: String)
    ensures
        r@ == index_listing(*ins),
{
    let mut out = String::new();
    push_tick_range(&mut out, "playback ticks", ins.playback_tick_range);
    out.append("sync-tick seek points:\n");
    let ghost head = out@;
    let mut i: usize = 0;
    while i < ins.sync_points.len()
        invariant
            i <= ins.sync_points@.len(),
            out@ == head + sync_rows(ins.sync_points@.take(i as int)),
        decreases ins.sync_points@.len() - i,
    {
        let row = sync_row_text(ins.sync_points[i]);
        out.append(row.as_str());
        proof {
            assert(ins.sync_points@.take(i + 1).drop_last() =~= ins.sync_points@.take(i as int));
        }
        i = i + 1;
    }
    assert(ins.sync_points@.take(i as int) =~= ins.sync_points@);
    out.append("full-packet seek points:\n");
    let ghost mid = out@;
    let mut j: usize = 0;
    while j < ins.full_packet_seek_points.len()
        invariant
            j <= ins.full_packet_seek_points@.len(),
            out@ == mid + seek_rows(ins.full_packet_seek_points@.take(j as int)),
        decreases ins.full_packet_seek_points@.len() - j,
    {
        let row = seek_row_text(ins.full_packet_seek_points[j]);
        out.append(row.as_str());
        proof {
            assert(ins.full_packet_seek_points@.take(j + 1).drop_last() =~= ins.full_packet_seek_points@.take(j as int));
        }
        j = j + 1;
    }
    assert(ins.full_packet_seek_points@.take(j as int) =~= ins.full_packet_seek_points@);
    assert(out@ =~= index_listing(*ins));
    out
}

/// Where the first `DEM_Stop` is and how many commands follow it.
pub open spec fn first_stop_line(ins: Inspection) -> Seq<char> {
    match ins.first_stop_command {
        Some(index) => "first stop: command "@ + digits(index as nat) + " ("@ + digits(
            ins.commands_after_stop as nat,
        ) + " command(s) follow it)\n"@,
        None => "first stop: not present\n"@,
    }
}

/// The summary lines before the compression line.
pub open spec fn summary_head(ins: Inspection) -> Seq<char> {
    "status: valid PBDEMS2\n"@ + "file size: "@ + digits(ins.file_size as nat) + " bytes\n"@ + header_offset_line(
        "file-info offset"@,
        ins.header.file_info_offset,
    ) + header_offset_line("spawn-groups offset"@, ins.header.spawn_groups_offset) + "commands: "@ + digits(
        ins.commands@.len(),
    ) + "\n"@ + "command headers: "@ + digits(ins.command_header_bytes as nat) + " bytes\n"@ + tick_range_line(
        "ticks"@,
        ins.tick_range,
    ) + tick_range_line("playback ticks"@, ins.playback_tick_range) + "sync points: "@ + digits(
        ins.sync_points@.len(),
    ) + "\n"@ + "full-packet seek points: "@ + digits(ins.full_packet_seek_points@.len()) + "\n"@
        + first_stop_line(ins) + "unknown commands: "@ + digits(ins.unknown_commands as nat) + "\n"@ + "bodies: "@
        + digits(ins.compression.total_encoded_bytes as nat) + " encoded bytes, "@ + digits(
        ins.compression.total_decoded_bytes as nat,
    ) + " decoded bytes\n"@
}

fn first_stop_text(ins: &Inspection) -> (r: String)
    ensures
        r@ == first_stop_line(*ins),
{
    match ins.first_stop_command {
        Some(index) => {
            let mut line = String::from_str("first stop: command ");
            push_decimal(&mut line, index as u64);
            line.append(" (");
            push_decimal(&mut line, ins.commands_after_stop as u64);
            line.append(" command(s) follow it)\n");
            line
        },
        None => String::from_str("first stop: not present\n"),
    }
}

/// The summary up to the compression line: status, file size, header
/// offsets, command count and header bytes, tick ranges, seek points, the
/// first stop, unknown commands and body totals.
pub fn summary_head_text(ins: &Inspection) -> (r: String)
    ensures
        r@ == summary_head(*ins),
{
    let mut out = String::from_str("status: valid PBDEMS2\n");
    out.append("file size: ");
    push_decimal(&mut out, ins.file_size as u64);
    out.append(" bytes\n");
    push_header_offset(&mut out, "file-info offset", ins.header.file_info_offset);
    push_header_offset(&mut out, "spawn-groups offset", ins.header.spawn_groups_offset);
    out.append("commands: ");
    push_decimal(&mut out, ins.commands.len() as u64);
    out.append("\n");
    out.append("command headers: ");
    push_decimal(&mut out, ins.command_header_bytes);
    out.append(" bytes\n");
    push_tick_range(&mut out, "ticks", ins.tick_range);
    push_tick_range(&mut out, "playback ticks", ins.playback_tick_range);
    out.append("sync points: ");
    push_decimal(&mut out, ins.sync_points.len() as u64);
    out.append("\n");
    out.append("full-packet seek points: ");
    push_decimal(&mut out, ins.full_packet_seek_points.len() as u64);
    out.append("\n");
    let stop = first_stop_text(ins);
    out.append(stop.as_str());
    out.append("unknown commands: ");
    push_decimal(&mut out, ins.unknown_commands as u64);
    out.append("\n");
    out.append("bodies: ");
    push_decimal(&mut out, ins.compression.total_encoded_bytes);
    out.append(" encoded bytes, ");
    push_decimal(&mut out, ins.compression.total_decoded_bytes);
    out.append(" decoded bytes\n");
    out
}

/// One line of the command counts.
pub open spec fn count_row(c: CommandCount) -> Seq<char> {
    "  "@ + align_right(signed_digits(c.command as int), 3) + " "@ + align_left(c.command_type@, 20) + " "@
        + digits(c.count as nat) + "\n"@
}

/// The lines of the command counts.
pub open spec fn count_rows(cs: Seq<CommandCount>) -> Seq<char>
    decreases cs.len(),
{
    if cs.len() == 0 {
        Seq::empty()
    } else {
        count_rows(cs.drop_last()) + count_row(cs.last())
    }
}

fn count_row_text(c: &CommandCount) -> (r: String)
    ensures
        r@ == count_row(*c),
{
    let mut row = String::from_str("  ");
    push_signed_right(&mut row, c.command as i64, 3);
    push_space(&mut row);
    push_left(&mut row, c.command_type, 20);
    push_space(&mut row);
    push_decimal(&mut row, c.count as u64);
    row.append("\n");
    row
}

/// The summary after the compression line: a heading, then each command
/// identifier with its name and how often it occurs.
pub fn command_counts_text(ins: &Inspection) -> (r: String)
    ensures
        r@ == "command counts:\n"@ + count_rows(ins.command_counts@),
{
    let mut out = String::from_str("command counts:\n");
    let ghost head = out@;
    let mut i: usize = 0;
    while i < ins.command_counts.len()
        invariant
            i <= ins.command_counts@.len(),
            out@ == head + count_rows(ins.command_counts@.take(i as int)),
        decreases ins.command_counts@.len() - i,
    {
        let row = count_row_text(&ins.command_counts[i]);
        out.append(row.as_str());
        proof {
            assert(ins.command_counts@.take(i + 1).drop_last() =~= ins.command_counts@.take(i as int));
        }
        i = i + 1;
    }
    assert(ins.command_counts@.take(i as int) =~= ins.command_counts@);
    out
}

} // verus!
