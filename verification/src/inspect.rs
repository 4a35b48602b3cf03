//! Structural inspection of a whole demo: command sizes, ticks, seek points,
//! compression totals and per-command counts, with every body decoded.
//!
//! Byte totals saturate at `u64::MAX` instead of wrapping; ratios are left
//! to the caller, which has the totals they are made of.
use vstd::prelude::*;

use crate::demo::command;
use crate::demo::{
    cmd_body_result, index_of_items, item_error_is, CommandFrame, Demo, FrameModel, IndexState,
    StreamItem, HEADER_SIZE,
};
use crate::error::Error;
use crate::limits::LimitsModel;
use crate::sorted::{insert_sorted, strictly_sorted};

verus! {

/// Smallest and largest tick of a set, and how many distinct ticks it holds.
#[derive(Debug, Clone, Copy, PartialEq, Eq)]
pub struct TickRange {
    pub first: i32,
    pub last: i32,
    pub distinct: usize,
}

/// A `DEM_SyncTick` command: where it starts and where playback resumes.
#[derive(Debug, Clone, Copy, PartialEq, Eq)]
pub struct SyncPoint {
    pub tick: i32,
    pub offset: usize,
    pub resume_offset: usize,
}

/// A full-packet keyframe from which playback can restart.
#[derive(Debug, Clone, Copy, PartialEq, Eq)]
pub struct SeekPoint {
    pub tick: i32,
    pub offset: usize,
}

/// The optional offsets stored in the file header.
#[derive(Debug, Clone, Copy, PartialEq, Eq)]
pub struct HeaderInfo {
    pub file_info_offset: Option<usize>,
    pub spawn_groups_offset: Option<usize>,
}

/// One framed command and the size of its decoded body.
#[derive(Debug, Clone, PartialEq, Eq)]
pub struct CommandInfo {
    pub index: usize,
    pub command: i32,
    pub command_type: &'static str,
    pub tick: i32,
    pub offset: usize,
    pub end_offset: usize,
    pub header_size: usize,
    pub encoded_size: usize,
    pub decoded_size: usize,
    pub compressed: bool,
}

/// How often one command identifier occurs.
#[derive(Debug, Clone, PartialEq, Eq)]
pub struct CommandCount {
    pub command: i32,
    pub command_type: &'static str,
    pub count: usize,
}

/// Body totals, overall and for compressed commands.
#[derive(Debug, Clone, Copy, PartialEq, Eq)]
pub struct CompressionStats {
    pub total_encoded_bytes: u64,
    pub total_decoded_bytes: u64,
    pub compressed_commands: usize,
    pub compressed_encoded_bytes: u64,
    pub compressed_decoded_bytes: u64,
    pub compressed_bytes_saved: i64,
}

/// Everything inspection learns about a demo.
#[derive(Debug, Clone, PartialEq, Eq)]
pub struct Inspection {
    pub file_size: usize,
    pub file_header_size: usize,
    pub header: HeaderInfo,
    pub command_header_bytes: u64,
    pub commands: Vec<CommandInfo>,
    pub command_counts: Vec<CommandCount>,
    pub tick_range: Option<TickRange>,
    pub playback_tick_range: Option<TickRange>,
    pub sync_points: Vec<SyncPoint>,
    pub full_packet_seek_points: Vec<SeekPoint>,
    pub compression: CompressionStats,
    pub first_stop_command: Option<usize>,
    pub commands_after_stop: usize,
    pub unknown_commands: usize,
}

impl Inspection {
    /// Number of framed commands.
    pub fn command_count(&self) -> (r: usize)
        ensures
            r == self.commands@.len(),
    {
        self.commands.len()
    }
}

/// Whether `value` is one of the standard command identifiers.
pub open spec fn is_known_command(value: i32) -> bool {
    command::STOP <= value <= command::RECOVERY
}

/// The display name of a command identifier.
pub open spec fn command_label(value: i32) -> Seq<char> {
    if value == command::STOP {
        "Stop"@
    } else if value == command::FILE_HEADER {
        "FileHeader"@
    } else if value == command::FILE_INFO {
        "FileInfo"@
    } else if value == command::SYNC_TICK {
        "SyncTick"@
    } else if value == command::SEND_TABLES {
        "SendTables"@
    } else if value == command::CLASS_INFO {
        "ClassInfo"@
    } else if value == command::STRING_TABLES {
        "StringTables"@
    } else if value == command::PACKET {
        "Packet"@
    } else if value == command::SIGNON_PACKET {
        "SignonPacket"@
    } else if value == command::CONSOLE_CMD {
        "ConsoleCmd"@
    } else if value == command::CUSTOM_DATA {
        "CustomData"@
    } else if value == command::CUSTOM_DATA_CALLBACKS {
        "CustomDataCallbacks"@
    } else if value == command::USER_CMD {
        "UserCmd"@
    } else if value == command::FULL_PACKET {
        "FullPacket"@
    } else if value == command::SAVE_GAME {
        "SaveGame"@
    } else if value == command::SPAWN_GROUPS {
        "SpawnGroups"@
    } else if value == command::ANIMATION_DATA {
        "AnimationData"@
    } else if value == command::ANIMATION_HEADER {
        "AnimationHeader"@
    } else if value == command::RECOVERY {
        "Recovery"@
    } else {
        "Unknown"@
    }
}

/// The name of each standard command is its `DEM_` name without the
/// prefix, numbered as the demo format numbers them, and every other
/// identifier is unknown.
pub proof fn lemma_command_names(value: i32)
    ensures
        value == 0 ==> command_label(value) == "Stop"@,
        value == 1 ==> command_label(value) == "FileHeader"@,
        value == 2 ==> command_label(value) == "FileInfo"@,
        value == 3 ==> command_label(value) == "SyncTick"@,
        value == 4 ==> command_label(value) == "SendTables"@,
        value == 5 ==> command_label(value) == "ClassInfo"@,
        value == 6 ==> command_label(value) == "StringTables"@,
        value == 7 ==> command_label(value) == "Packet"@,
        value == 8 ==> command_label(value) == "SignonPacket"@,
        value == 9 ==> command_label(value) == "ConsoleCmd"@,
        value == 10 ==> command_label(value) == "CustomData"@,
        value == 11 ==> command_label(value) == "CustomDataCallbacks"@,
        value == 12 ==> command_label(value) == "UserCmd"@,
        value == 13 ==> command_label(value) == "FullPacket"@,
        value == 14 ==> command_label(value) == "SaveGame"@,
        value == 15 ==> command_label(value) == "SpawnGroups"@,
        value == 16 ==> command_label(value) == "AnimationData"@,
        value == 17 ==> command_label(value) == "AnimationHeader"@,
        value == 18 ==> command_label(value) == "Recovery"@,
        !(0 <= value <= 18) ==> command_label(value) == "Unknown"@,
{
}

/// The display name of a command identifier, `"Unknown"` for one that is
/// not standard.
pub fn command_name(value: i32) -> (r: &'static str)
    ensures
        r@ == command_label(value),
{
    if value == command::STOP {
        "Stop"
    } else if value == command::FILE_HEADER {
        "FileHeader"
    } else if value == command::FILE_INFO {
        "FileInfo"
    } else if value == command::SYNC_TICK {
        "SyncTick"
    } else if value == command::SEND_TABLES {
        "SendTables"
    } else if value == command::CLASS_INFO {
        "ClassInfo"
    } else if value == command::STRING_TABLES {
        "StringTables"
    } else if value == command::PACKET {
        "Packet"
    } else if value == command::SIGNON_PACKET {
        "SignonPacket"
    } else if value == command::CONSOLE_CMD {
        "ConsoleCmd"
    } else if value == command::CUSTOM_DATA {
        "CustomData"
    } else if value == command::CUSTOM_DATA_CALLBACKS {
        "CustomDataCallbacks"
    } else if value == command::USER_CMD {
        "UserCmd"
    } else if value == command::FULL_PACKET {
        "FullPacket"
    } else if value == command::SAVE_GAME {
        "SaveGame"
    } else if value == command::SPAWN_GROUPS {
        "SpawnGroups"
    } else if value == command::ANIMATION_DATA {
        "AnimationData"
    } else if value == command::ANIMATION_HEADER {
        "AnimationHeader"
    } else if value == command::RECOVERY {
        "Recovery"
    } else {
        "Unknown"
    }
}

/// `x` as a `u64`, or `u64::MAX` when it is larger.
pub open spec fn clamp_u64(x: int) -> u64 {
    if x > u64::MAX {
        u64::MAX
    } else {
        x as u64
    }
}

/// `x` as an `i64`, clamped to the type's range.
pub open spec fn clamp_i64(x: int) -> i64 {
    if x > i64::MAX {
        i64::MAX
    } else if x < i64::MIN {
        i64::MIN
    } else {
        x as i64
    }
}

/// A size as a `u64`.
pub fn usize_to_u64(value: usize) -> (r: u64)
    ensures
        r == value,
{
    value as u64
}

/// `left - right`, clamped to the range of `i64`.
pub fn signed_difference(left: u64, right: u64) -> (r: i64)
    ensures
        r == clamp_i64(left - right),
{
    let difference: i128 = left as i128 - right as i128;
    if difference > i64::MAX as i128 {
        i64::MAX
    } else if difference < i64::MIN as i128 {
        i64::MIN
    } else {
        difference as i64
    }
}

/// `m` is the least element of `s`.
pub open spec fn is_least(s: Set<i32>, m: i32) -> bool {
    s.contains(m) && forall|x: i32| s.contains(x) ==> m <= x
}

/// `m` is the greatest element of `s`.
pub open spec fn is_greatest(s: Set<i32>, m: i32) -> bool {
    s.contains(m) && forall|x: i32| s.contains(x) ==> x <= m
}

/// The range of a finite set of ticks: none for the empty set.
pub open spec fn tick_range_of(s: Set<i32>) -> Option<TickRange> {
    if exists|m: i32| s.contains(m) {
        Some(
            TickRange {
                first: choose|m: i32| is_least(s, m),
                last: choose|m: i32| is_greatest(s, m),
                distinct: s.len() as usize,
            },
        )
    } else {
        None
    }
}

/// The range of the ticks in a strictly sorted vector.
fn sorted_range(v: &Vec<i32>) -> (r: Option<TickRange>)
    requires
        strictly_sorted(v@),
    ensures
        r == tick_range_of(v@.to_set()),
{
    let ghost s = v@.to_set();
    if v.len() == 0 {
        assert(!exists|m: i32| s.contains(m));
        return None;
    }
    let first = v[0];
    let last = v[v.len() - 1];
    proof {
        assert(s.contains(first)) by {
            assert(v@[0] == first);
        }
        assert(s.contains(last)) by {
            assert(v@[v@.len() - 1] == last);
        }
        assert forall|x: i32| s.contains(x) implies first <= x && x <= last by {
            let k = choose|k: int| 0 <= k < v@.len() && v@[k] == x;
            if k > 0 {
                assert(v@[0] < v@[k]);
            }
            if k < v@.len() - 1 {
                assert(v@[k] < v@[v@.len() - 1]);
            }
        }
        assert(is_least(s, first));
        assert(is_greatest(s, last));
        let lo = choose|m: i32| is_least(s, m);
        let hi = choose|m: i32| is_greatest(s, m);
        assert(lo <= first && first <= lo);
        assert(hi <= last && last <= hi);
        assert(v@.no_duplicates()) by {
            assert forall|a: int, b: int| 0 <= a < v@.len() && 0 <= b < v@.len() && a != b implies v@[a]
                != v@[b] by {
                if a < b {
                    assert(v@[a] < v@[b]);
                } else {
                    assert(v@[b] < v@[a]);
                }
            }
        }
        v@.unique_seq_to_set();
    }
    Some(TickRange { first, last, distinct: v.len() })
}

/// The range of a list of ticks, each counted once.
pub fn tick_range(ticks: &[i32]) -> (r: Option<TickRange>)
    ensures
        r == tick_range_of(ticks@.to_set()),
{
    let mut sorted: Vec<i32> = Vec::new();
    let mut i: usize = 0;
    proof {
        assert(sorted@.to_set() =~= ticks@.take(0).to_set());
    }
    while i < ticks.len()
        invariant
            i <= ticks@.len(),
            strictly_sorted(sorted@),
            sorted@.to_set() == ticks@.take(i as int).to_set(),
        decreases ticks@.len() - i,
    {
        insert_sorted(&mut sorted, ticks[i]);
        proof {
            let p = ticks@.take(i as int);
            let q = ticks@.take(i + 1);
            assert(q =~= p.push(ticks@[i as int]));
            assert(q.to_set() =~= p.to_set().insert(ticks@[i as int])) by {
                assert forall|y: i32| q.contains(y) <==> p.contains(y) || y == ticks@[i as int] by {
                    if q.contains(y) {
                        let k = choose|k: int| 0 <= k < q.len() && q[k] == y;
                        if k < p.len() {
                            assert(p[k] == y);
                        }
                    }
                    if p.contains(y) {
                        let k = choose|k: int| 0 <= k < p.len() && p[k] == y;
                        assert(q[k] == y);
                    }
                    if y == ticks@[i as int] {
                        assert(q[i as int] == y);
                    }
                }
            }
        }
        i = i + 1;
    }
    assert(ticks@.take(ticks@.len() as int) =~= ticks@);
    sorted_range(&sorted)
}

/// Command counts listed once per command identifier, in increasing order.
pub open spec fn counts_listed(v: Seq<CommandCount>, m: Map<i32, nat>) -> bool {
    &&& forall|i: int, j: int| 0 <= i < j < v.len() ==> v[i].command < v[j].command
    &&& forall|i: int|
        0 <= i < v.len() ==> m.contains_key(#[trigger] v[i].command) && v[i].count == m[v[i].command]
            && v[i].command_type@ == command_label(v[i].command)
    &&& forall|c: i32| m.contains_key(c) ==> exists|i: int| 0 <= i < v.len() && #[trigger] v[i].command == c
}

/// The counts after one more occurrence of `c`.
pub open spec fn bumped(m: Map<i32, nat>, c: i32) -> Map<i32, nat> {
    m.insert(
        c,
        if m.contains_key(c) {
            m[c] + 1
        } else {
            1
        },
    )
}

/// Count one more occurrence of `cmd`.
fn bump_count(v: &mut Vec<CommandCount>, cmd: i32, Ghost(m): Ghost<Map<i32, nat>>)
    requires
        counts_listed(old(v)@, m),
        m.contains_key(cmd) ==> m[cmd] < usize::MAX,
    ensures
        counts_listed(final(v)@, bumped(m, cmd)),
{
    let mut i: usize = 0;
    while i < v.len() && v[i].command < cmd
        invariant
            i <= v.len(),
            v@ == old(v)@,
            counts_listed(v@, m),
            forall|j: int| 0 <= j < i ==> v@[j].command < cmd,
        decreases v.len() - i,
    {
        i = i + 1;
    }
    let ghost before = v@;
    let ghost n = bumped(m, cmd);
    if i < v.len() && v[i].command == cmd {
        let old_count = v[i].count;
        let entry = CommandCount { command: cmd, command_type: v[i].command_type, count: old_count + 1 };
        v.set(i, entry);
        proof {
            assert forall|c: i32| n.contains_key(c) implies exists|k: int|
                0 <= k < v@.len() && #[trigger] v@[k].command == c by {
                if c == cmd {
                    assert(v@[i as int].command == c);
                } else {
                    let k = choose|k: int| 0 <= k < before.len() && #[trigger] before[k].command == c;
                    assert(v@[k].command == c);
                }
            }
        }
        return;
    }
    proof {
        if m.contains_key(cmd) {
            let k = choose|k: int| 0 <= k < before.len() && #[trigger] before[k].command == cmd;
            if k >= i {
                assert(before[i as int].command <= before[k].command);
            }
        }
    }
    let entry = CommandCount { command: cmd, command_type: command_name(cmd), count: 1 };
    v.insert(i, entry);
    proof {
        before.insert_ensures(i as int, entry);
        assert forall|a: int, b: int| 0 <= a < b < v@.len() implies v@[a].command < v@[b].command by {
            if b < i {
            } else if a > i {
                assert(v@[a] == before[a - 1]);
                assert(v@[b] == before[b - 1]);
            } else if a == i {
                assert(v@[b] == before[b - 1]);
            } else {
                if b != i {
                    assert(v@[b] == before[b - 1]);
                }
            }
        }
        assert forall|a: int| 0 <= a < v@.len() implies n.contains_key(#[trigger] v@[a].command) && v@[a].count
            == n[v@[a].command] && v@[a].command_type@ == command_label(v@[a].command) by {
            if a > i {
                assert(v@[a] == before[a - 1]);
            }
        }
        assert forall|c: i32| n.contains_key(c) implies exists|k: int|
            0 <= k < v@.len() && #[trigger] v@[k].command == c by {
            if c == cmd {
                assert(v@[i as int].command == c);
            } else {
                let k = choose|k: int| 0 <= k < before.len() && #[trigger] before[k].command == c;
                if k < i {
                    assert(v@[k].command == c);
                } else {
                    assert(v@[k + 1].command == c);
                }
            }
        }
    }
}

/// Running totals over the commands seen so far.
pub struct Stats {
    pub encoded: int,
    pub decoded: int,
    pub header_bytes: int,
    pub compressed: nat,
    pub compressed_encoded: int,
    pub compressed_decoded: int,
    pub first_stop: Option<usize>,
    pub after_stop: nat,
    pub unknown: nat,
    pub ticks: Set<i32>,
    pub sync_points: Seq<SyncPoint>,
    pub counts: Map<i32, nat>,
}

/// Totals before the first command.
pub open spec fn stats_start() -> Stats {
    Stats {
        encoded: 0,
        decoded: 0,
        header_bytes: 0,
        compressed: 0,
        compressed_encoded: 0,
        compressed_decoded: 0,
        first_stop: None,
        after_stop: 0,
        unknown: 0,
        ticks: Set::empty(),
        sync_points: Seq::empty(),
        counts: Map::empty(),
    }
}

/// Bytes of a command that are not its body.
pub open spec fn header_size_of(f: FrameModel) -> int {
    f.end_offset - f.offset - f.body.len()
}

/// Totals after one more command whose body decodes to `decoded` bytes.
/// Non-negative ticks are collected; commands after the first `DEM_Stop`
/// are counted.
pub open spec fn stats_step(s: Stats, f: FrameModel, decoded: nat) -> Stats {
    let cmd = f.header.cmd;
    let tick = f.header.tick;
    let c = f.header.compressed;
    let stops_here = cmd == command::STOP && s.first_stop is None;
    Stats {
        encoded: s.encoded + f.body.len(),
        decoded: s.decoded + decoded,
        header_bytes: s.header_bytes + header_size_of(f),
        compressed: if c {
            s.compressed + 1
        } else {
            s.compressed
        },
        compressed_encoded: if c {
            s.compressed_encoded + f.body.len()
        } else {
            s.compressed_encoded
        },
        compressed_decoded: if c {
            s.compressed_decoded + decoded
        } else {
            s.compressed_decoded
        },
        first_stop: if stops_here {
            Some(f.index)
        } else {
            s.first_stop
        },
        after_stop: if !stops_here && s.first_stop is Some {
            s.after_stop + 1
        } else {
            s.after_stop
        },
        unknown: if is_known_command(cmd) {
            s.unknown
        } else {
            s.unknown + 1
        },
        ticks: if tick >= 0 {
            s.ticks.insert(tick)
        } else {
            s.ticks
        },
        sync_points: if cmd == command::SYNC_TICK {
            s.sync_points.push(SyncPoint { tick, offset: f.offset, resume_offset: f.end_offset })
        } else {
            s.sync_points
        },
        counts: bumped(s.counts, cmd),
    }
}

/// Totals over commands `fs` whose bodies decode to `ds`.
pub open spec fn stats_of(fs: Seq<FrameModel>, ds: Seq<Seq<u8>>) -> Stats
    decreases fs.len(),
{
    if fs.len() == 0 {
        stats_start()
    } else {
        stats_step(stats_of(fs.drop_last(), ds.drop_last()), fs.last(), ds.last().len())
    }
}

/// Counts never exceed the number of commands.
proof fn lemma_stats_bounds(fs: Seq<FrameModel>, ds: Seq<Seq<u8>>)
    ensures
        stats_of(fs, ds).compressed <= fs.len(),
        stats_of(fs, ds).after_stop <= fs.len(),
        stats_of(fs, ds).unknown <= fs.len(),
        stats_of(fs, ds).encoded >= 0,
        stats_of(fs, ds).decoded >= 0,
        stats_of(fs, ds).compressed_encoded >= 0,
        stats_of(fs, ds).compressed_decoded >= 0,
        forall|c: i32| #[trigger] stats_of(fs, ds).counts.contains_key(c) ==> stats_of(fs, ds).counts[c] <= fs.len(),
    decreases fs.len(),
{
    if fs.len() > 0 {
        lemma_stats_bounds(fs.drop_last(), ds.drop_last());
    }
}

/// Commands that follow one another from `start` without gaps span their
/// header and body bytes together.
proof fn lemma_span(fs: Seq<FrameModel>, ds: Seq<Seq<u8>>, start: int)
    requires
        fs.len() > 0 ==> fs[0].offset == start,
        forall|k: int| 0 < k < fs.len() ==> (#[trigger] fs[k]).offset == fs[k - 1].end_offset,
        forall|k: int| 0 <= k < fs.len() ==> (#[trigger] fs[k]).offset + fs[k].body.len() <= fs[k].end_offset,
    ensures
        stats_of(fs, ds).header_bytes >= 0,
        stats_of(fs, ds).header_bytes + stats_of(fs, ds).encoded == if fs.len() == 0 {
            0
        } else {
            fs.last().end_offset - start
        },
    decreases fs.len(),
{
    if fs.len() > 0 {
        let prev = fs.drop_last();
        assert forall|k: int| 0 < k < prev.len() implies (#[trigger] prev[k]).offset == prev[k - 1].end_offset by {
            assert(fs[k] == prev[k]);
        }
        assert forall|k: int| 0 <= k < prev.len() implies (#[trigger] prev[k]).offset + prev[k].body.len() <= prev[k].end_offset by {
            assert(fs[k] == prev[k]);
        }
        lemma_span(prev, ds.drop_last(), start);
        if fs.len() > 1 {
            let last = fs.len() - 1;
            assert(fs[last].offset == fs[last - 1].end_offset);
        }
    }
}

/// The header and body bytes of a stream of frames make up the file
/// after its header.
proof fn lemma_commands_cover(demo: Demo, ds: Seq<Seq<u8>>)
    requires
        demo.wf(),
        forall|i: int| 0 <= i < demo.items().len() ==> #[trigger] demo.items()[i] is Frame,
        ds.len() == demo.items().len(),
    ensures
        16 + stats_of(frames_of(demo.items()), ds).header_bytes + stats_of(frames_of(demo.items()), ds).encoded
            == demo.spec_data().len(),
        stats_of(frames_of(demo.items()), ds).header_bytes >= 0,
        stats_of(frames_of(demo.items()), ds).encoded >= 0,
{
    let items = demo.items();
    demo.lemma_frame_layout();
    let fs = frames_of(items);
    assert forall|k: int| 0 < k < fs.len() implies (#[trigger] fs[k]).offset == fs[k - 1].end_offset by {
        assert(items[k] is Frame);
        assert(items[k - 1] is Frame);
        assert(items[(k - 1) + 1] == items[k]);
    }
    if fs.len() > 0 {
        assert(items[0] is Frame);
        assert(items[items.len() - 1] is Frame);
        assert(fs.last() == frame_of(items.last()));
    }
    assert forall|k: int| 0 <= k < fs.len() implies (#[trigger] fs[k]).offset + fs[k].body.len() <= fs[k].end_offset by {
        assert(items[k] is Frame);
    }
    lemma_span(fs, ds, 16);
    lemma_stats_bounds(fs, ds);
}

/// `ci` describes command `f` whose body decodes to `decoded` bytes.
pub open spec fn info_of(ci: CommandInfo, f: FrameModel, decoded: nat) -> bool {
    &&& ci.index == f.index
    &&& ci.command == f.header.cmd
    &&& ci.command_type@ == command_label(f.header.cmd)
    &&& ci.tick == f.header.tick
    &&& ci.offset == f.offset
    &&& ci.end_offset == f.end_offset
    &&& ci.header_size == header_size_of(f)
    &&& ci.encoded_size == f.body.len()
    &&& ci.decoded_size == decoded
    &&& ci.compressed == f.header.compressed
}

/// The frame an item carries.
pub open spec fn frame_of(item: StreamItem) -> FrameModel {
    match item {
        StreamItem::Frame(f) => f,
        StreamItem::Fail { .. } => arbitrary(),
    }
}

/// The frames of items that are all frames.
pub open spec fn frames_of(items: Seq<StreamItem>) -> Seq<FrameModel> {
    items.map_values(|it: StreamItem| frame_of(it))
}

/// Decoding the body of `f` with limits `lim` succeeds with `d`.
pub open spec fn decodes_to(f: FrameModel, lim: LimitsModel, d: Seq<u8>) -> bool {
    exists|before: Seq<u8>, consumed: nat, reserved: bool|
        #![trigger cmd_body_result(f.body, f.header, lim, before, d, consumed, reserved, Ok(()))]
        cmd_body_result(f.body, f.header, lim, before, d, consumed, reserved, Ok(()))
}

/// Decoding the body of `f` with limits `lim` fails, reported as `e`.
pub open spec fn decode_fails(f: FrameModel, lim: LimitsModel, e: Error) -> bool {
    exists|before: Seq<u8>, after: Seq<u8>, consumed: nat, reserved: bool, inner: Error|
        #![trigger cmd_body_result(f.body, f.header, lim, before, after, consumed, reserved, Err(inner))]
        cmd_body_result(f.body, f.header, lim, before, after, consumed, reserved, Err(inner))
            && (e matches Error::Command { offset, command, tick, source } && offset == f.offset && command
            == Some(f.header.cmd) && tick == Some(f.header.tick) && *source == inner)
}

/// Items `0..k` are frames whose bodies decode.
pub open spec fn decoded_prefix(items: Seq<StreamItem>, lim: LimitsModel, k: int) -> bool {
    forall|j: int|
        0 <= j < k ==> (#[trigger] items[j] is Frame && exists|d: Seq<u8>| decodes_to(frame_of(items[j]), lim, d))
}

/// Inspection stops with `e` at item `k`: every earlier command decoded,
/// and item `k` could not be framed or its body could not be decoded.
pub open spec fn fails_at(items: Seq<StreamItem>, lim: LimitsModel, k: int, e: Error) -> bool {
    &&& 0 <= k < items.len()
    &&& decoded_prefix(items, lim, k)
    &&& match items[k] {
        StreamItem::Fail { offset, header, failure } => item_error_is(e, offset, header, failure),
        StreamItem::Frame(f) => decode_fails(f, lim, e),
    }
}

/// The seek points of the full packets of an index.
pub open spec fn seek_points_of(p: Seq<(usize, i32)>) -> Seq<SeekPoint> {
    p.map_values(|q: (usize, i32)| SeekPoint { tick: q.1, offset: q.0 })
}

/// `ins` reports commands `fs`, whose bodies decode to `ds`, and index `st`.
pub open spec fn report_holds(ins: Inspection, fs: Seq<FrameModel>, ds: Seq<Seq<u8>>, st: IndexState) -> bool {
    let s = stats_of(fs, ds);
    &&& ins.commands@.len() == fs.len()
    &&& forall|i: int| 0 <= i < fs.len() ==> info_of(#[trigger] ins.commands@[i], fs[i], ds[i].len())
    &&& counts_listed(ins.command_counts@, s.counts)
    &&& ins.command_header_bytes == clamp_u64(s.header_bytes)
    &&& ins.tick_range == tick_range_of(s.ticks)
    &&& ins.playback_tick_range == tick_range_of(st.distinct_ticks.to_set())
    &&& ins.sync_points@ == s.sync_points
    &&& ins.full_packet_seek_points@ == seek_points_of(st.full_packets)
    &&& ins.compression.total_encoded_bytes == clamp_u64(s.encoded)
    &&& ins.compression.total_decoded_bytes == clamp_u64(s.decoded)
    &&& ins.compression.compressed_commands == s.compressed
    &&& ins.compression.compressed_encoded_bytes == clamp_u64(s.compressed_encoded)
    &&& ins.compression.compressed_decoded_bytes == clamp_u64(s.compressed_decoded)
    &&& ins.compression.compressed_bytes_saved == clamp_i64(
        clamp_u64(s.compressed_decoded) - clamp_u64(s.compressed_encoded),
    )
    &&& ins.first_stop_command == s.first_stop
    &&& ins.commands_after_stop == s.after_stop
    &&& ins.unknown_commands == s.unknown
}

/// Accumulators of the inspection loop.
struct Tally {
    commands: Vec<CommandInfo>,
    counts: Vec<CommandCount>,
    ticks: Vec<i32>,
    sync_points: Vec<SyncPoint>,
    encoded: u64,
    decoded: u64,
    header_bytes: u64,
    compressed: usize,
    compressed_encoded: u64,
    compressed_decoded: u64,
    first_stop: Option<usize>,
    after_stop: usize,
    unknown: usize,
}

impl Tally {
    /// The accumulators hold the totals over `fs` decoding to `ds`.
    spec fn agrees(&self, fs: Seq<FrameModel>, ds: Seq<Seq<u8>>) -> bool {
        let s = stats_of(fs, ds);
        &&& fs.len() == ds.len()
        &&& self.commands@.len() == fs.len()
        &&& forall|i: int| 0 <= i < fs.len() ==> info_of(#[trigger] self.commands@[i], fs[i], ds[i].len())
        &&& counts_listed(self.counts@, s.counts)
        &&& strictly_sorted(self.ticks@)
        &&& self.ticks@.to_set() == s.ticks
        &&& self.sync_points@ == s.sync_points
        &&& self.encoded == clamp_u64(s.encoded)
        &&& self.decoded == clamp_u64(s.decoded)
        &&& self.header_bytes == clamp_u64(s.header_bytes)
        &&& s.header_bytes >= 0
        &&& self.compressed == s.compressed
        &&& self.compressed_encoded == clamp_u64(s.compressed_encoded)
        &&& self.compressed_decoded == clamp_u64(s.compressed_decoded)
        &&& self.first_stop == s.first_stop
        &&& self.after_stop == s.after_stop
        &&& self.unknown == s.unknown
    }

    fn new() -> (r: Self)
        ensures
            r.agrees(Seq::empty(), Seq::empty()),
    {
        let r = Tally {
            commands: Vec::new(),
            counts: Vec::new(),
            ticks: Vec::new(),
            sync_points: Vec::new(),
            encoded: 0,
            decoded: 0,
            header_bytes: 0,
            compressed: 0,
            compressed_encoded: 0,
            compressed_decoded: 0,
            first_stop: None,
            after_stop: 0,
            unknown: 0,
        };
        assert(r.ticks@.to_set() =~= Set::<i32>::empty());
        assert(r.sync_points@ =~= Seq::<SyncPoint>::empty());
        r
    }

    /// Account one more command whose body decoded to `decoded` bytes.
    fn add(&mut self, frame: &CommandFrame, decoded: usize, Ghost(fs): Ghost<Seq<FrameModel>>, Ghost(ds): Ghost<Seq<Seq<u8>>>, Ghost(d): Ghost<Seq<u8>>)
        requires
            old(self).agrees(fs, ds),
            fs.len() + 1 < usize::MAX,
            d.len() == decoded,
            frame.model().offset + frame.model().body.len() <= frame.model().end_offset,
        ensures
            final(self).agrees(fs.push(frame.model()), ds.push(d)),
    {
        let ghost f = frame.model();
        let ghost s = stats_of(fs, ds);
        proof {
            lemma_stats_bounds(fs, ds);
            assert(fs.push(f).drop_last() =~= fs);
            assert(ds.push(d).drop_last() =~= ds);
        }
        let ghost n = stats_step(s, f, d.len());
        assert(stats_of(fs.push(f), ds.push(d)) == n);
        let header = *frame.header();
        let encoded_size = frame.encoded_body().len();
        let header_size = frame.end_offset() - frame.offset() - encoded_size;
        let encoded = usize_to_u64(encoded_size);
        let decoded_bytes = usize_to_u64(decoded);
        self.encoded = self.encoded.saturating_add(encoded);
        self.decoded = self.decoded.saturating_add(decoded_bytes);
        self.header_bytes = self.header_bytes.saturating_add(usize_to_u64(header_size));
        bump_count(&mut self.counts, header.cmd, Ghost(s.counts));
        if header.tick >= 0 {
            insert_sorted(&mut self.ticks, header.tick);
        }
        if header.cmd == command::SYNC_TICK {
            self.sync_points.push(
                SyncPoint { tick: header.tick, offset: frame.offset(), resume_offset: frame.end_offset() },
            );
        }
        if header.cmd == command::STOP && self.first_stop.is_none() {
            self.first_stop = Some(frame.index());
        } else if self.first_stop.is_some() {
            self.after_stop = self.after_stop + 1;
        }
        let name = command_name(header.cmd);
        if !(command::STOP <= header.cmd && header.cmd <= command::RECOVERY) {
            self.unknown = self.unknown + 1;
        }
        if header.compressed {
            self.compressed = self.compressed + 1;
            self.compressed_encoded = self.compressed_encoded.saturating_add(encoded);
            self.compressed_decoded = self.compressed_decoded.saturating_add(decoded_bytes);
        }
        let ghost commands_before = self.commands@;
        self.commands.push(
            CommandInfo {
                index: frame.index(),
                command: header.cmd,
                command_type: name,
                tick: header.tick,
                offset: frame.offset(),
                end_offset: frame.end_offset(),
                header_size,
                encoded_size,
                decoded_size: decoded,
                compressed: header.compressed,
            },
        );
        proof {
            assert forall|i: int| 0 <= i < fs.push(f).len() implies info_of(
                #[trigger] self.commands@[i],
                fs.push(f)[i],
                ds.push(d)[i].len(),
            ) by {
                if i < fs.len() {
                    assert(self.commands@[i] == commands_before[i]);
                }
            }
        }
    }
}

/// Fully validate and inspect a demo, decoding every command body.
///
/// The index is built first and its error, if any, is reported; then each
/// command is framed and decoded in turn, and the first failure is
/// reported. On success the report describes every command.
pub fn inspect_demo(demo: Demo<'_>) -> (r: Result<Inspection, Error>)
    requires
        demo.wf(),
    ensures
        r is Err ==> match index_of_items(demo.items()) {
            Err((offset, header, failure)) => r matches Err(e) && item_error_is(e, offset, header, failure),
            Ok(_) => exists|k: int| #![trigger demo.items()[k]] fails_at(demo.items(), demo.spec_limits(), k, r->Err_0),
        },
        r matches Ok(ins) ==> {
            &&& index_of_items(demo.items()) is Ok
            &&& forall|i: int| 0 <= i < demo.items().len() ==> #[trigger] demo.items()[i] is Frame
            &&& ins.file_size == demo.spec_data().len()
            &&& ins.file_header_size == HEADER_SIZE
            &&& ins.file_header_size + ins.command_header_bytes + ins.compression.total_encoded_bytes
                == ins.file_size
            &&& ins.header == HeaderInfo {
                file_info_offset: demo.spec_header().spec_file_info_offset(),
                spawn_groups_offset: demo.spec_header().spec_spawn_groups_offset(),
            }
            &&& exists|ds: Seq<Seq<u8>>|
                #![trigger report_holds(ins, frames_of(demo.items()), ds, index_of_items(demo.items())->Ok_0)]
                ds.len() == demo.items().len() && (forall|i: int|
                    0 <= i < ds.len() ==> decodes_to(frames_of(demo.items())[i], demo.spec_limits(), #[trigger] ds[i]))
                    && report_holds(ins, frames_of(demo.items()), ds, index_of_items(demo.items())->Ok_0)
        },
{
    let ghost items = demo.items();
    let ghost lim = demo.spec_limits();
    let header = demo.header();
    let index = match demo.index() {
        Ok(ix) => ix,
        Err(e) => return Err(e),
    };
    let ghost st = index_of_items(items)->Ok_0;
    let mut decoded: Vec<u8> = Vec::new();
    let mut tally = Tally::new();
    let mut it = demo.commands();
    proof {
        it.lemma_remaining_shape();
    }
    let ghost mut seen: Seq<StreamItem> = Seq::empty();
    let ghost mut ds: Seq<Seq<u8>> = Seq::empty();
    proof {
        assert(seen + it.remaining() =~= items);
        assert(frames_of(seen) =~= Seq::<FrameModel>::empty());
    }
    loop
        invariant
            it.wf(),
            items == demo.items(),
            lim == demo.spec_limits(),
            it.spec_limits() == lim,
            items == seen + it.remaining(),
            items.len() <= it.spec_data().len(),
            it.spec_data().len() * 8 <= usize::MAX,
            forall|k: int|
                0 <= k < items.len() ==> (#[trigger] items[k] matches StreamItem::Frame(f) ==> f.offset
                    + f.body.len() + 3 <= f.end_offset && f.body.len() <= it.spec_data().len()),
            decoded_prefix(items, lim, seen.len() as int),
            ds.len() == seen.len(),
            forall|i: int| 0 <= i < ds.len() ==> decodes_to(frames_of(seen)[i], lim, #[trigger] ds[i]),
            tally.agrees(frames_of(seen), ds),
            index_of_items(items) is Ok,
            st == index_of_items(items)->Ok_0,
            index.spec_full_packets() == st.full_packets,
            index.spec_distinct_ticks() == st.distinct_ticks,
            header == demo.spec_header(),
        ensures
            seen == items,
        decreases it.remaining().len(),
    {
        let ghost before = it.remaining();
        proof {
            assert(seen + before =~= items);
        }
        let frame = match it.next() {
            None => {
                assert(seen =~= items);
                break;
            },
            Some(Err(e)) => {
                proof {
                    let k = seen.len() as int;
                    assert(items[k] == before[0]);
                    assert(fails_at(items, lim, k, e));
                }
                return Err(e);
            },
            Some(Ok(f)) => f,
        };
        let ghost fm = frame.model();
        proof {
            assert(items[seen.len() as int] == before[0]);
        }
        let ghost out_before = decoded@;
        match frame.decode_body(&mut decoded) {
            Ok(()) => {},
            Err(e) => {
                proof {
                    let k = seen.len() as int;
                    assert(decode_fails(fm, lim, e));
                    assert(fails_at(items, lim, k, e));
                }
                return Err(e);
            },
        }
        let ghost d = decoded@;
        assert(decodes_to(fm, lim, d));
        tally.add(&frame, decoded.len(), Ghost(frames_of(seen)), Ghost(ds), Ghost(d));
        proof {
            let k = seen.len() as int;
            assert(frames_of(seen.push(before[0])) =~= frames_of(seen).push(fm));
            seen = seen.push(before[0]);
            ds = ds.push(d);
            assert(items =~= seen + it.remaining());
            assert forall|j: int| 0 <= j < seen.len() implies (#[trigger] items[j] is Frame && exists|x: Seq<u8>|
                decodes_to(frame_of(items[j]), lim, x)) by {
                if j == k {
                    assert(decodes_to(frame_of(items[j]), lim, d));
                }
            }
        }
    }
    let mut seek_points: Vec<SeekPoint> = Vec::new();
    let full = index.full_packets();
    let mut i: usize = 0;
    while i < full.len()
        invariant
            i <= full@.len(),
            seek_points@ =~= seek_points_of(crate::demo::positions_view(full@)).take(i as int),
        decreases full@.len() - i,
    {
        seek_points.push(SeekPoint { tick: full[i].tick(), offset: full[i].offset() });
        i = i + 1;
    }
    let ticks_range = sorted_range(&tally.ticks);
    let playback_tick_range = tick_range(index.distinct_ticks());
    let saved = signed_difference(tally.compressed_decoded, tally.compressed_encoded);
    let ins = Inspection {
        file_size: demo.data().len(),
        file_header_size: HEADER_SIZE,
        header: HeaderInfo {
            file_info_offset: header.file_info_offset(),
            spawn_groups_offset: header.spawn_groups_offset(),
        },
        command_header_bytes: tally.header_bytes,
        commands: tally.commands,
        command_counts: tally.counts,
        tick_range: ticks_range,
        playback_tick_range,
        sync_points: tally.sync_points,
        full_packet_seek_points: seek_points,
        compression: CompressionStats {
            total_encoded_bytes: tally.encoded,
            total_decoded_bytes: tally.decoded,
            compressed_commands: tally.compressed,
            compressed_encoded_bytes: tally.compressed_encoded,
            compressed_decoded_bytes: tally.compressed_decoded,
            compressed_bytes_saved: saved,
        },
        first_stop_command: tally.first_stop,
        commands_after_stop: tally.after_stop,
        unknown_commands: tally.unknown,
    };
    proof {
        lemma_commands_cover(demo, ds);
        assert(seek_points@ =~= seek_points_of(st.full_packets));
        assert(report_holds(ins, frames_of(items), ds, st));
    }
    Ok(ins)
}

} // verus!
