//! Iteration over the outer command stream and the header-only seek index.

use vstd::prelude::*;

use super::command;
use super::{
    cmd_body_result, cmd_header_read, header_parse_result, read_cmd_body_with_limits,
    read_cmd_header, CmdHeader, DemoHeader, HeaderRead,
};
use crate::error::{failure_is, Error, Failure};
use crate::io::bits::{byte_bits_needed, lemma_varint_bound, varint_read, VarintRead};
use crate::io::ByteReader;
use crate::limits::{DecodeLimits, LimitsModel};
use crate::sorted::{insert_sorted, strictly_sorted};
use crate::text::push_decimal;

verus! {

/// Fixed number of bytes before the first PBDEMS2 command.
pub const HEADER_SIZE: usize = 16;

/// Bit set on a raw demo command identifier when its body is Snappy-compressed.
pub const COMPRESSED_FLAG: u32 = 64;

/// A command's absolute byte offset and tick.
#[derive(Debug, Clone, Copy, PartialEq, Eq, Structural)]
#[non_exhaustive]
pub struct CommandPosition {
    offset: usize,
    tick: i32,
}

impl CommandPosition {
    pub(crate) fn new(offset: usize, tick: i32) -> (r: Self)
        ensures
            r.spec_offset() == offset,
            r.spec_tick() == tick,
    {
        CommandPosition { offset, tick }
    }

    /// The absolute byte offset.
    pub closed spec fn spec_offset(&self) -> usize {
        self.offset
    }

    /// The tick.
    pub closed spec fn spec_tick(&self) -> i32 {
        self.tick
    }

    /// Absolute byte offset from the beginning of the demo file.
    pub fn offset(&self) -> (r: usize)
        ensures
            r == self.spec_offset(),
    {
        self.offset
    }

    /// Tick recorded in the command header.
    pub fn tick(&self) -> (r: i32)
        ensures
            r == self.spec_tick(),
    {
        self.tick
    }
}

/// Header-only index used for seeking and segmented playback.
#[derive(Debug, Clone)]
pub struct DemoIndex {
    full_packets: Vec<CommandPosition>,
    distinct_ticks: Vec<i32>,
    stream_start: Option<usize>,
}

/// Offset and tick of each position.
pub open spec fn positions_view(p: Seq<CommandPosition>) -> Seq<(usize, i32)> {
    p.map_values(|c: CommandPosition| (c.spec_offset(), c.spec_tick()))
}

impl DemoIndex {
    /// Offsets and ticks of the full-packet keyframes.
    pub closed spec fn spec_full_packets(&self) -> Seq<(usize, i32)> {
        positions_view(self.full_packets@)
    }

    /// The distinct ticks.
    pub closed spec fn spec_distinct_ticks(&self) -> Seq<i32> {
        self.distinct_ticks@
    }

    /// The offset after the synchronization command.
    pub closed spec fn spec_stream_start(&self) -> Option<usize> {
        self.stream_start
    }

    /// Full-packet keyframes in ascending file order.
    pub fn full_packets(&self) -> (r: &[CommandPosition])
        ensures
            positions_view(r@) == self.spec_full_packets(),
    {
        self.full_packets.as_slice()
    }

    /// Distinct non-negative ticks after the synchronization command.
    pub fn distinct_ticks(&self) -> (r: &[i32])
        ensures
            r@ == self.spec_distinct_ticks(),
    {
        self.distinct_ticks.as_slice()
    }

    /// Absolute offset immediately after `DEM_SyncTick`, when present.
    pub fn stream_start(&self) -> (r: Option<usize>)
        ensures
            r == self.spec_stream_start(),
    {
        self.stream_start
    }

    /// Last full-packet keyframe at or before `target_tick`.
    pub fn full_packet_at_or_before(&self, target_tick: i32) -> (r: Option<CommandPosition>)
        ensures
            match r {
                Some(p) => exists|i: int|
                    0 <= i < self.spec_full_packets().len() && #[trigger] self.spec_full_packets()[i]
                        == (p.spec_offset(), p.spec_tick()) && p.spec_tick() <= target_tick && forall|
                        j: int,
                    |
                        i < j < self.spec_full_packets().len() ==> #[trigger] self.spec_full_packets()[j].1
                            > target_tick,
                None => forall|j: int|
                    0 <= j < self.spec_full_packets().len() ==> #[trigger] self.spec_full_packets()[j].1
                        > target_tick,
            },
    {
        let ghost all = self.spec_full_packets();
        let mut i = self.full_packets.len();
        while i > 0
            invariant
                i <= self.full_packets@.len(),
                all == positions_view(self.full_packets@),
                forall|j: int| i <= j < all.len() ==> #[trigger] all[j].1 > target_tick,
            decreases i,
        {
            let p = self.full_packets[i - 1];
            assert(all[i - 1] == (p.spec_offset(), p.spec_tick()));
            if p.tick <= target_tick {
                assert(self.spec_full_packets()[i - 1] == (p.spec_offset(), p.spec_tick()));
                assert(forall|j: int| i - 1 < j < self.spec_full_packets().len() ==> #[trigger] self.spec_full_packets()[j].1 > target_tick);
                return Some(p);
            }
            i = i - 1;
        }
        None
    }
}

/// One framed command as values.
pub struct FrameModel {
    pub index: usize,
    pub offset: usize,
    pub end_offset: usize,
    pub header: CmdHeader,
    pub body: Seq<u8>,
}

/// What the command iterator yields.
pub enum StreamItem {
    /// A framed command.
    Frame(FrameModel),
    /// The command at `offset` could not be framed; `header` is known when
    /// the header was read.
    Fail { offset: usize, header: Option<CmdHeader>, failure: Failure },
}

/// `e` is the error reported for a command at `offset` whose header, when
/// known, is `header`, caused by `failure`.
pub open spec fn item_error_is(e: Error, offset: usize, header: Option<CmdHeader>, failure: Failure) -> bool {
    e matches Error::Command { offset: o, command, tick, source } && o == offset && command == match header {
        Some(h) => Some(h.cmd),
        None => None::<i32>,
    } && tick == match header {
        Some(h) => Some(h.tick),
        None => None::<i32>,
    } && failure_is(*source, failure)
}

/// A command header takes at least three bytes and no more than there are.
pub proof fn lemma_header_len(bytes: Seq<u8>, flag: u32)
    ensures
        cmd_header_read(bytes, flag) matches HeaderRead::Read { len, .. } ==> 3 <= len <= bytes.len(),
        cmd_header_read(bytes, flag) matches HeaderRead::Fail { consumed, .. } ==> consumed <= bytes.len(),
{
    lemma_varint_bound(bytes, 0, 5);
    if let VarintRead::Value { value: _, len: l1 } = varint_read(bytes, 5) {
        lemma_varint_bound(bytes.skip(l1 as int), 0, 5);
        if let VarintRead::Value { value: _, len: l2 } = varint_read(bytes.skip(l1 as int), 5) {
            lemma_varint_bound(bytes.skip((l1 + l2) as int), 0, 5);
        }
    }
}

/// The next item of a command stream over `data`, whose byte 0 lies at
/// absolute offset `base`, read from `pos`, and where it leaves the reader.
pub open spec fn next_item(data: Seq<u8>, base: nat, pos: nat, index: nat, lim: LimitsModel) -> Option<
    (StreamItem, nat),
> {
    if pos >= data.len() {
        None
    } else {
        let offset = (base + pos) as usize;
        match cmd_header_read(data.skip(pos as int), COMPRESSED_FLAG) {
            HeaderRead::Fail { failure, consumed } => Some(
                (StreamItem::Fail { offset, header: None, failure }, pos + consumed),
            ),
            HeaderRead::Read { header, len } => {
                let n = header.body_size as usize;
                let at = pos + len;
                if n > lim.max_command_body_bytes {
                    Some(
                        (
                            StreamItem::Fail {
                                offset,
                                header: Some(header),
                                failure: Failure::Exact(
                                    Error::LimitExceeded {
                                        resource: "encoded command body",
                                        limit: lim.max_command_body_bytes,
                                        actual: n,
                                    },
                                ),
                            },
                            at,
                        ),
                    )
                } else if n > data.len() - at {
                    Some(
                        (
                            StreamItem::Fail {
                                offset,
                                header: Some(header),
                                failure: Failure::Exact(
                                    Error::Overflow {
                                        needed: byte_bits_needed(n as nat) as usize,
                                        available: (8 * (data.len() - at)) as usize,
                                    },
                                ),
                            },
                            at,
                        ),
                    )
                } else {
                    Some(
                        (
                            StreamItem::Frame(
                                FrameModel {
                                    index: index as usize,
                                    offset,
                                    end_offset: (base + at + n) as usize,
                                    header,
                                    body: data.subrange(at as int, at + n),
                                },
                            ),
                            (at + n) as nat,
                        ),
                    )
                }
            },
        }
    }
}

/// Every item of the stream from `pos` on: frames until the data ends,
/// or up to and including the first failure.
pub open spec fn stream_items(data: Seq<u8>, base: nat, pos: nat, index: nat, lim: LimitsModel) -> Seq<StreamItem>
    decreases data.len() - pos,
{
    proof {
        lemma_header_len(data.skip(pos as int), COMPRESSED_FLAG);
    }
    match next_item(data, base, pos, index, lim) {
        None => Seq::empty(),
        Some((StreamItem::Frame(f), next)) => seq![StreamItem::Frame(f)] + stream_items(
            data,
            base,
            next,
            index + 1,
            lim,
        ),
        Some((item, _)) => seq![item],
    }
}

/// Frames lie inside the data, in file order, each after a header of at
/// least three bytes, and there are no more items than bytes left.
pub proof fn lemma_items_shape(data: Seq<u8>, base: nat, pos: nat, index: nat, lim: LimitsModel)
    requires
        pos <= data.len(),
        base + data.len() <= usize::MAX,
    ensures
        stream_items(data, base, pos, index, lim).len() <= data.len() - pos,
        frames_within(stream_items(data, base, pos, index, lim), (base + pos) as int, (base + data.len()) as int),
        frames_in_order(stream_items(data, base, pos, index, lim)),
    decreases data.len() - pos,
{
    lemma_header_len(data.skip(pos as int), COMPRESSED_FLAG);
    let items = stream_items(data, base, pos, index, lim);
    match next_item(data, base, pos, index, lim) {
        None => {},
        Some((StreamItem::Frame(f), next)) => {
            lemma_items_shape(data, base, next, index + 1, lim);
            let rest = stream_items(data, base, next, index + 1, lim);
            assert(items == seq![StreamItem::Frame(f)] + rest);
            assert forall|k: int| 0 <= k < items.len() implies (#[trigger] items[k] matches StreamItem::Frame(g)
                ==> base + pos <= g.offset && g.offset + g.body.len() + 3 <= g.end_offset && g.end_offset <= base
                + data.len()) by {
                if k > 0 {
                    assert(items[k] == rest[k - 1]);
                }
            }
            assert forall|a: int, b: int| 0 <= a < b < items.len() implies (#[trigger] items[a] matches StreamItem::Frame(x)
                ==> (#[trigger] items[b] matches StreamItem::Frame(y) ==> x.end_offset <= y.offset)) by {
                assert(items[b] == rest[b - 1]);
                if a > 0 {
                    assert(items[a] == rest[a - 1]);
                }
            }
        },
        Some((item, _)) => {},
    }
}

/// Only the last of `items` can be a failure: an error ends the stream.
pub open spec fn failure_ends(items: Seq<StreamItem>) -> bool {
    forall|k: int| 0 <= k < items.len() - 1 ==> #[trigger] items[k] is Frame
}

/// A stream ends at its first failure.
pub proof fn lemma_failure_ends(data: Seq<u8>, base: nat, pos: nat, index: nat, lim: LimitsModel)
    ensures
        failure_ends(stream_items(data, base, pos, index, lim)),
    decreases data.len() - pos,
{
    lemma_header_len(data.skip(pos as int), COMPRESSED_FLAG);
    let items = stream_items(data, base, pos, index, lim);
    match next_item(data, base, pos, index, lim) {
        Some((StreamItem::Frame(f), next)) => {
            lemma_failure_ends(data, base, next, index + 1, lim);
            let rest = stream_items(data, base, next, index + 1, lim);
            assert(items == seq![StreamItem::Frame(f)] + rest);
            assert forall|k: int| 0 <= k < items.len() - 1 implies #[trigger] items[k] is Frame by {
                if k > 0 {
                    assert(items[k] == rest[k - 1]);
                }
            }
        },
        _ => {},
    }
}

/// Every frame among `items` starts at or after `lo` and ends by `hi`,
/// after a header of at least three bytes.
pub open spec fn frames_within(items: Seq<StreamItem>, lo: int, hi: int) -> bool {
    forall|k: int|
        0 <= k < items.len() ==> (#[trigger] items[k] matches StreamItem::Frame(f) ==> lo <= f.offset && f.offset
            + f.body.len() + 3 <= f.end_offset && f.end_offset <= hi)
}

/// Each frame among `items` ends before any later one starts.
pub open spec fn frames_in_order(items: Seq<StreamItem>) -> bool {
    forall|a: int, b: int|
        0 <= a < b < items.len() ==> (#[trigger] items[a] matches StreamItem::Frame(x) ==> (#[trigger] items[b] matches StreamItem::Frame(y)
            ==> x.end_offset <= y.offset))
}

/// What indexing keeps true: offsets come from frames of `items` and
/// lie in `lo..=hi`, keyframes are in file order, and recorded ticks are
/// non-negative and distinct.
pub open spec fn index_facts(items: Seq<StreamItem>, st: IndexState, lo: int, hi: int) -> bool {
    &&& st.stream_start matches Some(o) ==> lo <= o <= hi
    &&& forall|k: int|
        #![trigger st.full_packets[k]]
        0 <= k < st.full_packets.len() ==> exists|j: int|
            0 <= j < items.len() && (#[trigger] items[j] matches StreamItem::Frame(f) && f.offset
                == st.full_packets[k].0) && lo <= st.full_packets[k].0 <= hi
    &&& forall|a: int, b: int|
        0 <= a < b < st.full_packets.len() ==> #[trigger] st.full_packets[a].0 < #[trigger] st.full_packets[b].0
    &&& forall|k: int| 0 <= k < st.distinct_ticks.len() ==> #[trigger] st.distinct_ticks[k] >= 0
    &&& st.distinct_ticks.no_duplicates()
}

/// Indexing items whose frames lie in order within `lo..=hi` keeps
/// [`index_facts`].
pub proof fn lemma_index_facts(items: Seq<StreamItem>, lo: int, hi: int)
    requires
        frames_within(items, lo, hi),
        frames_in_order(items),
    ensures
        index_of_items(items) matches Ok(st) ==> index_facts(items, st, lo, hi),
    decreases items.len(),
{
    if items.len() > 0 {
        let prefix = items.drop_last();
        assert forall|k: int| 0 <= k < prefix.len() implies #[trigger] prefix[k] == items[k] by {}
        assert(frames_within(prefix, lo, hi)) by {
            assert forall|k: int| 0 <= k < prefix.len() implies (#[trigger] prefix[k] matches StreamItem::Frame(f) ==> lo
                <= f.offset && f.offset + f.body.len() + 3 <= f.end_offset && f.end_offset <= hi) by {
                assert(prefix[k] == items[k]);
            }
        }
        assert(frames_in_order(prefix)) by {
            assert forall|a: int, b: int| 0 <= a < b < prefix.len() implies (#[trigger] prefix[a] matches StreamItem::Frame(x)
                ==> (#[trigger] prefix[b] matches StreamItem::Frame(y) ==> x.end_offset <= y.offset)) by {
                assert(prefix[a] == items[a]);
                assert(prefix[b] == items[b]);
            }
        }
        lemma_index_facts(prefix, lo, hi);
        if let Ok(st) = index_of_items(prefix) {
            if !st.stopped {
                if let StreamItem::Frame(f) = items.last() {
                    let last = items.len() - 1;
                    assert(items[last] == items.last());
                    let nst = index_step(st, f);
                    assert forall|k: int| #![trigger nst.full_packets[k]] 0 <= k < nst.full_packets.len() implies exists|j: int|
                        0 <= j < items.len() && (#[trigger] items[j] matches StreamItem::Frame(g) && g.offset
                            == nst.full_packets[k].0) && lo <= nst.full_packets[k].0 <= hi by {
                        if k < st.full_packets.len() {
                            assert(nst.full_packets[k] == st.full_packets[k]);
                            let j = choose|j: int|
                                0 <= j < prefix.len() && (#[trigger] prefix[j] matches StreamItem::Frame(g) && g.offset
                                    == st.full_packets[k].0) && lo <= st.full_packets[k].0 <= hi;
                            assert(items[j] == prefix[j]);
                        } else {
                            assert(items[last] matches StreamItem::Frame(g) && g.offset == nst.full_packets[k].0);
                        }
                    }
                    assert forall|a: int, b: int| 0 <= a < b < nst.full_packets.len() implies #[trigger] nst.full_packets[a].0
                        < #[trigger] nst.full_packets[b].0 by {
                        if b >= st.full_packets.len() {
                            let j = choose|j: int|
                                0 <= j < prefix.len() && (#[trigger] prefix[j] matches StreamItem::Frame(g) && g.offset
                                    == st.full_packets[a].0) && lo <= st.full_packets[a].0 <= hi;
                            assert(items[j] == prefix[j]);
                            assert(nst.full_packets[a] == st.full_packets[a]);
                            assert(j < last);
                        } else {
                            assert(nst.full_packets[a] == st.full_packets[a]);
                            assert(nst.full_packets[b] == st.full_packets[b]);
                        }
                    }
                }
            }
        }
    }
}

/// Frames follow one another without gaps: the first starts where the
/// stream is read from, each next one where the previous ended, and when
/// every item is a frame the last one ends with the data.
pub open spec fn frames_contiguous(items: Seq<StreamItem>, start: int, end: int) -> bool {
    &&& items.len() == 0 ==> start == end
    &&& items.len() > 0 ==> (items[0] matches StreamItem::Frame(f) ==> f.offset == start)
    &&& forall|k: int|
        0 <= k < items.len() - 1 ==> (#[trigger] items[k] matches StreamItem::Frame(x) ==> (items[k
            + 1] matches StreamItem::Frame(y) ==> y.offset == x.end_offset))
    &&& items.len() > 0 ==> (items.last() matches StreamItem::Frame(f) ==> f.end_offset == end)
}

/// The items of a stream read from `pos` are contiguous up to the end of
/// the data.
pub proof fn lemma_items_contiguous(data: Seq<u8>, base: nat, pos: nat, index: nat, lim: LimitsModel)
    requires
        pos <= data.len(),
        base + data.len() <= usize::MAX,
    ensures
        frames_contiguous(stream_items(data, base, pos, index, lim), (base + pos) as int, (base + data.len()) as int),
    decreases data.len() - pos,
{
    lemma_header_len(data.skip(pos as int), COMPRESSED_FLAG);
    let items = stream_items(data, base, pos, index, lim);
    match next_item(data, base, pos, index, lim) {
        None => {},
        Some((StreamItem::Frame(f), next)) => {
            lemma_items_contiguous(data, base, next, index + 1, lim);
            let rest = stream_items(data, base, next, index + 1, lim);
            assert(items == seq![StreamItem::Frame(f)] + rest);
            assert forall|k: int| 0 <= k < items.len() - 1 implies (#[trigger] items[k] matches StreamItem::Frame(x)
                ==> (items[k + 1] matches StreamItem::Frame(y) ==> y.offset == x.end_offset)) by {
                assert(items[k + 1] == rest[k]);
                if k > 0 {
                    assert(items[k] == rest[k - 1]);
                }
            }
            if rest.len() > 0 {
                assert(items.last() == rest.last());
            }
        },
        Some((item, _)) => {},
    }
}

/// Each frame among `items`, read from `data` whose byte 0 lies at
/// absolute offset `base`, is numbered `first` plus its place, carries the
/// command header found at its offset, and borrows as its body the
/// `body_size` bytes that end at its end offset.
pub open spec fn frames_numbered(items: Seq<StreamItem>, data: Seq<u8>, base: int, first: int) -> bool {
    forall|k: int|
        0 <= k < items.len() ==> (#[trigger] items[k] matches StreamItem::Frame(f) ==> {
            &&& f.index == first + k
            &&& f.body.len() == f.header.body_size
            &&& cmd_header_read(data.skip(f.offset - base), COMPRESSED_FLAG) == (HeaderRead::Read {
                header: f.header,
                len: (f.end_offset - f.offset - f.body.len()) as nat,
            })
            &&& f.body == data.subrange(f.end_offset - base - f.body.len(), f.end_offset - base)
        })
}

/// The frames of a stream read from `pos` are numbered from `index` and
/// each holds the header at its offset and the body bytes after it.
pub proof fn lemma_items_numbered(data: Seq<u8>, base: nat, pos: nat, index: nat, lim: LimitsModel)
    requires
        pos <= data.len(),
        base + data.len() <= usize::MAX,
        index + data.len() - pos <= usize::MAX,
    ensures
        frames_numbered(stream_items(data, base, pos, index, lim), data, base as int, index as int),
    decreases data.len() - pos,
{
    lemma_header_len(data.skip(pos as int), COMPRESSED_FLAG);
    let items = stream_items(data, base, pos, index, lim);
    match next_item(data, base, pos, index, lim) {
        None => {},
        Some((StreamItem::Frame(f), next)) => {
            lemma_items_numbered(data, base, next, index + 1, lim);
            let rest = stream_items(data, base, next, index + 1, lim);
            assert(items == seq![StreamItem::Frame(f)] + rest);
            assert(data.skip(f.offset - base) == data.skip(pos as int));
            assert forall|k: int| 0 <= k < items.len() implies (#[trigger] items[k] matches StreamItem::Frame(g) ==> {
                &&& g.index == index + k
                &&& g.body.len() == g.header.body_size
                &&& cmd_header_read(data.skip(g.offset - base), COMPRESSED_FLAG) == (HeaderRead::Read {
                    header: g.header,
                    len: (g.end_offset - g.offset - g.body.len()) as nat,
                })
                &&& g.body == data.subrange(g.end_offset - base - g.body.len(), g.end_offset - base)
            }) by {
                if k > 0 {
                    assert(items[k] == rest[k - 1]);
                }
            }
        },
        Some((item, _)) => {},
    }
}

/// `item` with its frame number raised by `by`.
pub open spec fn renumber(item: StreamItem, by: nat) -> StreamItem {
    match item {
        StreamItem::Frame(f) => StreamItem::Frame(FrameModel { index: (f.index + by) as usize, ..f }),
        other => other,
    }
}

/// `items` with every frame number raised by `by`.
pub open spec fn renumbered(items: Seq<StreamItem>, by: nat) -> Seq<StreamItem> {
    items.map_values(|item: StreamItem| renumber(item, by))
}

/// Renumbering a frame followed by frames numbered from one, all by
/// `index`, numbers the followers from `index + 1`.
proof fn lemma_renumber_head(head: StreamItem, later: Seq<StreamItem>, index: nat)
    requires
        frames_numbered_from(later, 0),
        index + later.len() + 1 <= usize::MAX,
    ensures
        renumbered(seq![head] + renumbered(later, 1), index) == seq![renumber(head, index)] + renumbered(
            later,
            index + 1,
        ),
{
    let left = renumbered(seq![head] + renumbered(later, 1), index);
    let right = seq![renumber(head, index)] + renumbered(later, index + 1);
    assert forall|k: int| 0 <= k < right.len() implies #[trigger] left[k] == right[k] by {
        if k > 0 {
            let item = later[k - 1];
            assert(renumber(renumber(item, 1), index) == renumber(item, index + 1));
        }
    }
    assert(left =~= right);
}

/// Each frame among `items` is numbered `first` plus its place.
pub open spec fn frames_numbered_from(items: Seq<StreamItem>, first: int) -> bool {
    forall|k: int| 0 <= k < items.len() ==> (#[trigger] items[k] matches StreamItem::Frame(f) ==> f.index == first + k)
}

/// Reading a stream from `pos` is reading the data that starts at `pos`
/// on its own, at the same absolute offsets, with frames numbered on from
/// `index`.
#[verifier::rlimit(30)]
pub proof fn lemma_items_shift(data: Seq<u8>, base: nat, pos: nat, index: nat, lim: LimitsModel)
    requires
        pos <= data.len(),
        base + data.len() <= usize::MAX,
        index + data.len() - pos <= usize::MAX,
    ensures
        stream_items(data, base, pos, index, lim) == renumbered(
            stream_items(data.skip(pos as int), base + pos, 0, 0, lim),
            index,
        ),
    decreases data.len() - pos,
{
    let tail = data.skip(pos as int);
    lemma_header_len(data.skip(pos as int), COMPRESSED_FLAG);
    lemma_header_len(tail.skip(0), COMPRESSED_FLAG);
    assert(tail.skip(0) =~= tail);
    let left = stream_items(data, base, pos, index, lim);
    let right = stream_items(tail, base + pos, 0, 0, lim);
    lemma_items_shape(tail, base + pos, 0, 0, lim);
    match next_item(data, base, pos, index, lim) {
        None => {
            assert(right =~= Seq::<StreamItem>::empty());
            assert(renumbered(right, index) =~= left);
        },
        Some((StreamItem::Frame(f), next)) => {
            let g = match next_item(tail, base + pos, 0, 0, lim) {
                Some((StreamItem::Frame(g), _)) => g,
                _ => f,
            };
            assert(next_item(tail, base + pos, 0, 0, lim) matches Some((StreamItem::Frame(h), n2)) && n2 == next - pos
                && renumber(StreamItem::Frame(h), index) == StreamItem::Frame(f)) by {
                let at = (pos + cmd_header_read(data.skip(pos as int), COMPRESSED_FLAG)->Read_len) as int;
                assert(tail.subrange(at - pos, at - pos + f.body.len()) =~= data.subrange(at, at + f.body.len()));
            }
            lemma_items_shift(data, base, next, index + 1, lim);
            lemma_items_shift(tail, base + pos, (next - pos) as nat, 1, lim);
            assert(tail.skip(next - pos) =~= data.skip(next as int));
            let later = stream_items(data.skip(next as int), base + next, 0, 0, lim);
            lemma_items_shape(data.skip(next as int), base + next, 0, 0, lim);
            lemma_items_numbered(data.skip(next as int), base + next, 0, 0, lim);
            assert(left == seq![StreamItem::Frame(f)] + renumbered(later, index + 1));
            assert(right == seq![StreamItem::Frame(g)] + renumbered(later, 1));
            assert(frames_numbered_from(later, 0)) by {
                assert forall|k: int| 0 <= k < later.len() implies (#[trigger] later[k] matches StreamItem::Frame(h)
                    ==> h.index == k) by {}
            }
            lemma_renumber_head(StreamItem::Frame(g), later, index);
            assert(renumbered(right, index) == left);
        },
        Some((item, _)) => {
            let at = cmd_header_read(data.skip(pos as int), COMPRESSED_FLAG);
            assert(renumbered(right, index) =~= left);
        },
    }
}

/// From the place of any frame on, a stream is the stream read from that
/// frame's offset, with frames numbered on from that place.
pub proof fn lemma_items_suffix(data: Seq<u8>, base: nat, pos: nat, index: nat, lim: LimitsModel, k: int)
    requires
        pos <= data.len(),
        base + data.len() <= usize::MAX,
        0 <= k < stream_items(data, base, pos, index, lim).len(),
        stream_items(data, base, pos, index, lim)[k] is Frame,
    ensures
        base <= stream_items(data, base, pos, index, lim)[k]->Frame_0.offset <= base + data.len(),
        stream_items(data, base, pos, index, lim).skip(k) == stream_items(
            data,
            base,
            (stream_items(data, base, pos, index, lim)[k]->Frame_0.offset - base) as nat,
            index + k as nat,
            lim,
        ),
    decreases k,
{
    lemma_header_len(data.skip(pos as int), COMPRESSED_FLAG);
    lemma_items_shape(data, base, pos, index, lim);
    let items = stream_items(data, base, pos, index, lim);
    match next_item(data, base, pos, index, lim) {
        None => {},
        Some((StreamItem::Frame(f), next)) => {
            let rest = stream_items(data, base, next, index + 1, lim);
            assert(items == seq![StreamItem::Frame(f)] + rest);
            if k == 0 {
                assert(items.skip(0) =~= items);
            } else {
                assert(items[k] == rest[k - 1]);
                lemma_items_suffix(data, base, next, index + 1, lim, k - 1);
                assert(items.skip(k) =~= rest.skip(k - 1));
            }
        },
        Some((item, _)) => {},
    }
}

/// Borrowed view of one framed command and its encoded body.
#[derive(Debug, Clone, Copy)]
pub struct CommandFrame<'a> {
    index: usize,
    offset: usize,
    end_offset: usize,
    header: CmdHeader,
    encoded_body: &'a [u8],
    limits: DecodeLimits,
}

impl<'a> CommandFrame<'a> {
    /// The body's bit length fits a `usize`.
    #[verifier::type_invariant]
    spec fn body_fits(self) -> bool {
        self.encoded_body@.len() * 8 <= usize::MAX
    }

    /// The frame as values.
    pub closed spec fn model(&self) -> FrameModel {
        FrameModel {
            index: self.index,
            offset: self.offset,
            end_offset: self.end_offset,
            header: self.header,
            body: self.encoded_body@,
        }
    }

    /// The limits that decoding the body applies.
    pub closed spec fn spec_limits(&self) -> LimitsModel {
        self.limits@
    }

    /// Zero-based command index relative to the iterator's starting offset.
    pub fn index(&self) -> (r: usize)
        ensures
            r == self.model().index,
    {
        self.index
    }

    /// Absolute byte offset at which this command header begins.
    pub fn offset(&self) -> (r: usize)
        ensures
            r == self.model().offset,
    {
        self.offset
    }

    /// Absolute byte offset immediately after this command body.
    pub fn end_offset(&self) -> (r: usize)
        ensures
            r == self.model().end_offset,
    {
        self.end_offset
    }

    /// Parsed command header.
    pub fn header(&self) -> (r: &CmdHeader)
        ensures
            *r == self.model().header,
    {
        &self.header
    }

    /// Encoded body bytes as stored in the demo.
    pub fn encoded_body(&self) -> (r: &'a [u8])
        ensures
            r@ == self.model().body,
    {
        self.encoded_body
    }

    /// Copy or decompress the body into a reusable output buffer.
    pub fn decode_body(&self, output: &mut Vec<u8>) -> (r: Result<(), Error>)
        ensures
            r is Ok ==> exists|consumed: nat, reserved: bool|
                #![trigger cmd_body_result(self.model().body, self.model().header, self.spec_limits(), old(output)@, final(output)@, consumed, reserved, Ok(()))]
                cmd_body_result(
                    self.model().body,
                    self.model().header,
                    self.spec_limits(),
                    old(output)@,
                    final(output)@,
                    consumed,
                    reserved,
                    Ok(()),
                ),
            r matches Err(e) ==> exists|consumed: nat, reserved: bool, inner: Error|
                #![trigger cmd_body_result(self.model().body, self.model().header, self.spec_limits(), old(output)@, final(output)@, consumed, reserved, Err(inner))]
                cmd_body_result(
                    self.model().body,
                    self.model().header,
                    self.spec_limits(),
                    old(output)@,
                    final(output)@,
                    consumed,
                    reserved,
                    Err(inner),
                ) && (e matches Error::Command { offset, command, tick, source }
                    && offset == self.model().offset && command == Some(self.model().header.cmd)
                    && tick == Some(self.model().header.tick) && *source == inner),
    {
        proof {
            use_type_invariant(self);
        }
        let mut reader = ByteReader::new(self.encoded_body);
        let ghost start = reader;
        let ghost before = *output;
        assert(start.spec_rest() =~= self.encoded_body@);
        let res = read_cmd_body_with_limits(&mut reader, &self.header, output, &self.limits);
        let ghost consumed = (reader.spec_pos() - start.spec_pos()) as nat;
        let ghost reserved = choose|reserved: bool|
            cmd_body_result(start.spec_rest(), self.header, self.limits@, before@, output@, consumed, reserved, res);
        assert(cmd_body_result(self.model().body, self.model().header, self.spec_limits(), before@, output@, consumed, reserved, res));
        match res {
            Ok(()) => {
                assert(cmd_body_result(self.model().body, self.model().header, self.spec_limits(), before@, output@, consumed, reserved, Ok(())));
                Ok(())
            },
            Err(source) => {
                assert(cmd_body_result(self.model().body, self.model().header, self.spec_limits(), before@, output@, consumed, reserved, Err(source)));
                Err(
                Error::Command {
                    offset: self.offset,
                    command: Some(self.header.cmd),
                    tick: Some(self.header.tick),
                    source: Box::new(source),
                },
            )
            },
        }
    }
}

/// Strict, allocation-free iterator over framed outer demo commands.
pub struct CommandIter<'a> {
    reader: ByteReader<'a>,
    base_offset: usize,
    index: usize,
    limits: DecodeLimits,
    failed: bool,
}

impl<'a> CommandIter<'a> {
    /// The reader is sound, absolute offsets fit, and frames are counted.
    pub closed spec fn wf(&self) -> bool {
        &&& self.reader.wf()
        &&& self.base_offset + self.reader.spec_data().len() <= usize::MAX
        &&& self.index <= self.reader.spec_pos()
        &&& self.reader.spec_pos() <= self.reader.spec_data().len()
    }

    /// The bytes being iterated.
    pub closed spec fn spec_data(&self) -> Seq<u8> {
        self.reader.spec_data()
    }

    /// Absolute offset of the first byte.
    pub closed spec fn spec_base(&self) -> nat {
        self.base_offset as nat
    }

    /// Position of the next command.
    pub closed spec fn spec_pos(&self) -> nat {
        self.reader.spec_pos()
    }

    /// Index of the next command.
    pub closed spec fn spec_index(&self) -> nat {
        self.index as nat
    }

    /// Limits applied to each command.
    pub closed spec fn spec_limits(&self) -> LimitsModel {
        self.limits@
    }

    /// Whether an error ended the iteration.
    pub closed spec fn spec_failed(&self) -> bool {
        self.failed
    }

    /// The items this iterator has yet to yield.
    pub open spec fn remaining(&self) -> Seq<StreamItem> {
        if self.spec_failed() {
            Seq::empty()
        } else {
            stream_items(self.spec_data(), self.spec_base(), self.spec_pos(), self.spec_index(), self.spec_limits())
        }
    }

    /// Every frame still to come lies inside the data after a header of at
    /// least three bytes, and there are no more items than bytes. The
    /// frames are numbered on from the iterator's count (from zero for a
    /// new iterator), each holds the command header at its offset and
    /// borrows the body bytes that follow it, and, until an error has ended
    /// the iteration, each starts where the one before it ended, the first
    /// at the read position, and the last ends with the data when no error
    /// is among them. Only the last item still to come can be an error.
    pub proof fn lemma_remaining_shape(&self)
        requires
            self.wf(),
        ensures
            self.remaining().len() <= self.spec_data().len(),
            forall|k: int|
                0 <= k < self.remaining().len() ==> (#[trigger] self.remaining()[k] matches StreamItem::Frame(f)
                    ==> f.offset + f.body.len() + 3 <= f.end_offset && f.body.len() <= self.spec_data().len()),
            frames_numbered(self.remaining(), self.spec_data(), self.spec_base() as int, self.spec_index() as int),
            failure_ends(self.remaining()),
            !self.spec_failed() ==> frames_contiguous(
                self.remaining(),
                (self.spec_base() + self.spec_pos()) as int,
                (self.spec_base() + self.spec_data().len()) as int,
            ),
    {
        if !self.spec_failed() {
            self.reader.lemma_valid();
            lemma_items_shape(self.spec_data(), self.spec_base(), self.spec_pos(), self.spec_index(), self.spec_limits());
            lemma_items_numbered(self.spec_data(), self.spec_base(), self.spec_pos(), self.spec_index(), self.spec_limits());
            lemma_failure_ends(self.spec_data(), self.spec_base(), self.spec_pos(), self.spec_index(), self.spec_limits());
            lemma_items_contiguous(self.spec_data(), self.spec_base(), self.spec_pos(), self.spec_index(), self.spec_limits());
        }
    }

    fn new(data: &'a [u8], offset: usize, limits: DecodeLimits) -> (r: Self)
        requires
            data@.len() * 8 <= usize::MAX,
            offset + data@.len() <= usize::MAX,
        ensures
            r.wf(),
            r.spec_data() == data@,
            r.spec_base() == offset,
            r.spec_pos() == 0,
            r.spec_index() == 0,
            r.spec_limits() == limits@,
            !r.spec_failed(),
    {
        CommandIter { reader: ByteReader::new(data), base_offset: offset, index: 0, limits, failed: false }
    }

    /// Frame the next command, or `None` once the data ends or an error
    /// has been reported. An error ends the iteration.
    pub fn next(&mut self) -> (r: Option<Result<CommandFrame<'a>, Error>>)
        requires
            old(self).wf(),
        ensures
            final(self).wf(),
            final(self).spec_data() == old(self).spec_data(),
            final(self).spec_base() == old(self).spec_base(),
            final(self).spec_limits() == old(self).spec_limits(),
            if old(self).remaining().len() == 0 {
                r is None && final(self).remaining().len() == 0
            } else {
                match old(self).remaining()[0] {
                    StreamItem::Frame(f) => (r matches Some(Ok(frame)) && frame.model() == f
                        && frame.spec_limits() == old(self).spec_limits())
                        && final(self).remaining() == old(self).remaining().drop_first(),
                    StreamItem::Fail { offset, header, failure } => (r matches Some(Err(e))
                        && item_error_is(e, offset, header, failure)) && final(self).remaining()
                        == Seq::<StreamItem>::empty(),
                }
            },
    {
        let ghost data = self.spec_data();
        let ghost base = self.spec_base();
        let ghost pos = self.spec_pos();
        proof {
            self.reader.lemma_valid();
            lemma_header_len(data.skip(pos as int), COMPRESSED_FLAG);
        }
        if self.failed || self.reader.is_empty() {
            return None;
        }
        let offset = self.base_offset + self.reader.position();
        let header = match read_cmd_header(&mut self.reader, COMPRESSED_FLAG) {
            Ok(h) => h,
            Err(error) => {
                self.failed = true;
                return Some(Err(Error::Command { offset, command: None, tick: None, source: Box::new(error) }));
            },
        };
        let body_size = header.body_size as usize;
        let max = self.limits.max_command_body_bytes();
        if body_size > max {
            self.failed = true;
            return Some(
                Err(
                    Error::Command {
                        offset,
                        command: Some(header.cmd),
                        tick: Some(header.tick),
                        source: Box::new(Error::LimitExceeded { resource: "encoded command body", limit: max, actual: body_size }),
                    },
                ),
            );
        }
        let encoded_body = match self.reader.read_bytes(body_size) {
            Ok(body) => body,
            Err(error) => {
                self.failed = true;
                return Some(
                    Err(
                        Error::Command {
                            offset,
                            command: Some(header.cmd),
                            tick: Some(header.tick),
                            source: Box::new(error),
                        },
                    ),
                );
            },
        };
        let end_offset = self.base_offset + self.reader.position();
        let frame = CommandFrame { index: self.index, offset, end_offset, header, encoded_body, limits: self.limits };
        self.index = self.index + 1;
        proof {
            assert(encoded_body@ =~= data.subrange((pos + (self.spec_pos() - pos - body_size)) as int, self.spec_pos() as int));
        }
        Some(Ok(frame))
    }
}

/// What indexing has gathered so far.
pub struct IndexState {
    pub full_packets: Seq<(usize, i32)>,
    pub distinct_ticks: Seq<i32>,
    pub stream_start: Option<usize>,
    pub past_sync: bool,
    pub stopped: bool,
}

/// Indexing before the first command.
pub open spec fn index_start() -> IndexState {
    IndexState {
        full_packets: Seq::empty(),
        distinct_ticks: Seq::empty(),
        stream_start: None,
        past_sync: false,
        stopped: false,
    }
}

/// Indexing after one more frame: `DEM_SyncTick` marks where playback
/// resumes, `DEM_Stop` ends the index, and after synchronization each
/// full packet is a keyframe and each non-negative tick not seen before a
/// new tick, in order of first appearance.
pub open spec fn index_step(st: IndexState, f: FrameModel) -> IndexState {
    let cmd = f.header.cmd;
    let tick = f.header.tick;
    if cmd == command::SYNC_TICK {
        IndexState { past_sync: true, stream_start: Some(f.end_offset), ..st }
    } else if cmd == command::STOP {
        IndexState { stopped: true, ..st }
    } else if !st.past_sync {
        st
    } else {
        let packets = if cmd == command::FULL_PACKET {
            st.full_packets.push((f.offset, tick))
        } else {
            st.full_packets
        };
        if tick >= 0 && !st.distinct_ticks.contains(tick) {
            IndexState { full_packets: packets, distinct_ticks: st.distinct_ticks.push(tick), ..st }
        } else {
            IndexState { full_packets: packets, ..st }
        }
    }
}

/// The index of a stream's items: the state after its frames up to the
/// first `DEM_Stop`, or the first framing failure before that.
pub open spec fn index_of_items(items: Seq<StreamItem>) -> Result<IndexState, (usize, Option<CmdHeader>, Failure)>
    decreases items.len(),
{
    if items.len() == 0 {
        Ok(index_start())
    } else {
        match index_of_items(items.drop_last()) {
            Err(x) => Err(x),
            Ok(st) => if st.stopped {
                Ok(st)
            } else {
                match items.last() {
                    StreamItem::Fail { offset, header, failure } => Err((offset, header, failure)),
                    StreamItem::Frame(f) => Ok(index_step(st, f)),
                }
            },
        }
    }
}

/// `item` is a frame of command `c`.
pub open spec fn is_cmd(item: StreamItem, c: i32) -> bool {
    match item {
        StreamItem::Frame(f) => f.header.cmd == c,
        _ => false,
    }
}

/// The offset and tick of a frame.
pub open spec fn position_of(item: StreamItem) -> (usize, i32) {
    (item->Frame_0.offset, item->Frame_0.header.tick)
}

/// The tick of a frame.
pub open spec fn tick_of(item: StreamItem) -> i32 {
    item->Frame_0.header.tick
}

/// A `DEM_Stop` frame comes among the first `n` items.
pub open spec fn stop_before(items: Seq<StreamItem>, n: int) -> bool {
    exists|j: int| 0 <= j < n && #[trigger] is_cmd(items[j], command::STOP)
}

/// A `DEM_SyncTick` frame with no `DEM_Stop` before it comes among the
/// first `n` items.
pub open spec fn sync_before(items: Seq<StreamItem>, n: int) -> bool {
    exists|j: int|
        0 <= j < n && #[trigger] is_cmd(items[j], command::SYNC_TICK)
            && !stop_before(items, j)
}

/// Item `k` is a frame that the index looks at: neither a sync nor a stop,
/// after a sync and before any stop.
pub open spec fn indexed(items: Seq<StreamItem>, k: int) -> bool {
    &&& 0 <= k < items.len()
    &&& items[k] is Frame
    &&& !is_cmd(items[k], command::SYNC_TICK)
    &&& !is_cmd(items[k], command::STOP)
    &&& sync_before(items, k)
    &&& !stop_before(items, k)
}

/// `p` is the position of an indexed full packet among `items`.
pub open spec fn indexed_full_packet(items: Seq<StreamItem>, p: (usize, i32)) -> bool {
    exists|k: int|
        #[trigger] indexed(items, k) && is_cmd(items[k], command::FULL_PACKET) && p == position_of(items[k])
}

/// `t` is the non-negative tick of an indexed frame among `items`.
pub open spec fn indexed_tick(items: Seq<StreamItem>, t: i32) -> bool {
    t >= 0 && exists|k: int| #[trigger] indexed(items, k) && items[k] is Frame && tick_of(items[k]) == t
}

/// Among the frames before place `n`, ticks come in the order they first
/// occur: wherever a later-listed tick occurs, an earlier-listed one
/// occurred before.
pub open spec fn ticks_order_upto(items: Seq<StreamItem>, ticks: Seq<i32>, n: int) -> bool {
    forall|a: int, b: int, kb: int|
        #![trigger indexed(items, kb), ticks[a], ticks[b]]
        0 <= a < b < ticks.len() && 0 <= kb < n && indexed(items, kb) && tick_of(items[kb]) == ticks[b]
            ==> tick_before(items, ticks[a], kb)
}

/// Tick `t` occurs on an indexed frame before place `k`.
pub open spec fn tick_before(items: Seq<StreamItem>, t: i32, k: int) -> bool {
    exists|ka: int| 0 <= ka < k && #[trigger] indexed(items, ka) && tick_of(items[ka]) == t
}

/// Ticks come in the order they first occur among the indexed frames.
pub open spec fn ticks_in_first_order(items: Seq<StreamItem>, ticks: Seq<i32>) -> bool {
    ticks_order_upto(items, ticks, items.len() as int)
}

/// What the index holds, in terms of the items it was built from.
pub open spec fn index_contents(items: Seq<StreamItem>, st: IndexState) -> bool {
    &&& st.stopped == stop_before(items, items.len() as int)
    &&& st.past_sync == sync_before(items, items.len() as int)
    &&& forall|p: (usize, i32)| #[trigger] st.full_packets.contains(p) <==> indexed_full_packet(items, p)
    &&& forall|t: i32| #[trigger] st.distinct_ticks.contains(t) <==> indexed_tick(items, t)
    &&& ticks_in_first_order(items, st.distinct_ticks)
}

/// Dropping the last item changes none of the facts about the items
/// before it.
proof fn lemma_prefix_facts(items: Seq<StreamItem>)
    requires
        items.len() > 0,
    ensures
        forall|n: int| 0 <= n <= items.len() - 1 ==> #[trigger] stop_before(items, n) == stop_before(items.drop_last(), n),
        forall|n: int| 0 <= n <= items.len() - 1 ==> #[trigger] sync_before(items, n) == sync_before(items.drop_last(), n),
        forall|k: int| 0 <= k < items.len() - 1 ==> #[trigger] indexed(items, k) == indexed(items.drop_last(), k),
{
    let prefix = items.drop_last();
    assert forall|n: int| 0 <= n <= items.len() - 1 implies #[trigger] stop_before(items, n) == stop_before(prefix, n) by {
        if stop_before(items, n) {
            let j = choose|j: int| 0 <= j < n && #[trigger] is_cmd(items[j], command::STOP);
            assert(prefix[j] == items[j]);
        }
        if stop_before(prefix, n) {
            let j = choose|j: int| 0 <= j < n && #[trigger] is_cmd(prefix[j], command::STOP);
            assert(prefix[j] == items[j]);
        }
    }
    assert forall|n: int| 0 <= n <= items.len() - 1 implies #[trigger] sync_before(items, n) == sync_before(prefix, n) by {
        if sync_before(items, n) {
            let j = choose|j: int|
                0 <= j < n && #[trigger] is_cmd(items[j], command::SYNC_TICK)
                    && !stop_before(items, j);
            assert(prefix[j] == items[j]);
            assert(stop_before(items, j) == stop_before(prefix, j));
        }
        if sync_before(prefix, n) {
            let j = choose|j: int|
                0 <= j < n && #[trigger] is_cmd(prefix[j], command::SYNC_TICK)
                    && !stop_before(prefix, j);
            assert(prefix[j] == items[j]);
            assert(stop_before(items, j) == stop_before(prefix, j));
        }
    }
    assert forall|k: int| 0 <= k < items.len() - 1 implies #[trigger] indexed(items, k) == indexed(prefix, k) by {
        assert(prefix[k] == items[k]);
        assert(stop_before(items, k) == stop_before(prefix, k));
        assert(sync_before(items, k) == sync_before(prefix, k));
    }
}

/// The index holds exactly the full packets and the non-negative ticks of
/// the frames it looks at, and knows whether a stop or a sync was seen.
pub proof fn lemma_index_contents(items: Seq<StreamItem>)
    ensures
        index_of_items(items) matches Ok(st) ==> index_contents(items, st),
    decreases items.len(),
{
    if items.len() > 0 {
        let prefix = items.drop_last();
        let last = items.len() - 1;
        lemma_index_contents(prefix);
        lemma_prefix_facts(items);
        assert(items[last] == items.last());
        if let Ok(st) = index_of_items(prefix) {
            assert(stop_before(items, last) == st.stopped);
            assert(sync_before(items, last) == st.past_sync);
            assert forall|p: (usize, i32)| indexed_full_packet(prefix, p) <==> (exists|k: int|
                #[trigger] indexed(items, k) && k < last && is_cmd(items[k], command::FULL_PACKET) && p == position_of(items[k])) by {
                if indexed_full_packet(prefix, p) {
                    let k = choose|k: int|
                        #[trigger] indexed(prefix, k) && is_cmd(prefix[k], command::FULL_PACKET) && p == position_of(prefix[k]);
                    assert(prefix[k] == items[k]);
                    assert(k < last);
                    assert(indexed(items, k));
                }
                if exists|k: int|
                    #[trigger] indexed(items, k) && k < last && is_cmd(items[k], command::FULL_PACKET) && p == position_of(items[k]) {
                    let k = choose|k: int|
                        #[trigger] indexed(items, k) && k < last && is_cmd(items[k], command::FULL_PACKET) && p == position_of(items[k]);
                    assert(prefix[k] == items[k]);
                    assert(indexed(prefix, k));
                }
            }
            assert forall|t: i32| indexed_tick(prefix, t) <==> (t >= 0 && exists|k: int|
                #[trigger] indexed(items, k) && k < last && items[k] is Frame && tick_of(items[k]) == t) by {
                if indexed_tick(prefix, t) {
                    let k = choose|k: int|
                        #[trigger] indexed(prefix, k) && prefix[k] is Frame && tick_of(prefix[k]) == t;
                    assert(prefix[k] == items[k]);
                    assert(k < last);
                    assert(indexed(items, k));
                }
                if t >= 0 && exists|k: int|
                    #[trigger] indexed(items, k) && k < last && items[k] is Frame && tick_of(items[k]) == t {
                    let k = choose|k: int|
                        #[trigger] indexed(items, k) && k < last && items[k] is Frame && tick_of(items[k]) == t;
                    assert(prefix[k] == items[k]);
                    assert(indexed(prefix, k));
                }
            }
            assert(ticks_order_upto(prefix, st.distinct_ticks, prefix.len() as int));
            assert(ticks_order_upto(items, st.distinct_ticks, last)) by {
                assert forall|a: int, b: int, kb: int|
                    #![trigger indexed(items, kb), st.distinct_ticks[a], st.distinct_ticks[b]]
                    0 <= a < b < st.distinct_ticks.len() && 0 <= kb < last && indexed(items, kb) && tick_of(items[kb])
                        == st.distinct_ticks[b] implies exists|ka: int|
                    0 <= ka < kb && #[trigger] indexed(items, ka) && tick_of(items[ka]) == st.distinct_ticks[a] by {
                    assert(prefix[kb] == items[kb]);
                    assert(indexed(prefix, kb));
                    assert(0 <= kb < prefix.len() && indexed(prefix, kb) && tick_of(prefix[kb]) == st.distinct_ticks[b]);
                    let ka = choose|ka: int|
                        0 <= ka < kb && #[trigger] indexed(prefix, ka) && tick_of(prefix[ka]) == st.distinct_ticks[a];
                    assert(prefix[ka] == items[ka]);
                    assert(indexed(items, ka));
                }
            }
            if st.stopped {
                assert(!indexed(items, last));
                assert(stop_before(items, items.len() as int)) by {
                    let j = choose|j: int| 0 <= j < last && #[trigger] is_cmd(items[j], command::STOP);
                }
                assert(sync_before(items, items.len() as int) == st.past_sync) by {
                    if sync_before(items, items.len() as int) {
                        let j = choose|j: int|
                            0 <= j < items.len() && #[trigger] is_cmd(items[j], command::SYNC_TICK)
                                && !stop_before(items, j);
                        if j == last {
                            assert(false);
                        }
                    }
                }
                lemma_index_contents_last(items, st, st);
            } else if let StreamItem::Frame(f) = items.last() {
                lemma_index_step_contents(items, st, f);
            }
        }
    }
}

/// The facts about the whole items once the last one is known to leave
/// the index as it was and not to be looked at.
proof fn lemma_index_contents_last(items: Seq<StreamItem>, st: IndexState, nst: IndexState)
    requires
        items.len() > 0,
        !indexed(items, items.len() - 1),
        nst.full_packets == st.full_packets,
        nst.distinct_ticks == st.distinct_ticks,
        nst.stopped == stop_before(items, items.len() as int),
        nst.past_sync == sync_before(items, items.len() as int),
        forall|p: (usize, i32)| #[trigger] st.full_packets.contains(p) <==> (exists|k: int|
            #[trigger] indexed(items, k) && k < items.len() - 1 && is_cmd(items[k], command::FULL_PACKET) && p == position_of(items[k])),
        forall|t: i32| #[trigger] st.distinct_ticks.contains(t) <==> (t >= 0 && exists|k: int|
            #[trigger] indexed(items, k) && k < items.len() - 1 && items[k] is Frame && tick_of(items[k]) == t),
        ticks_order_upto(items, st.distinct_ticks, items.len() - 1),
    ensures
        index_contents(items, nst),
{
    assert(ticks_in_first_order(items, nst.distinct_ticks)) by {
        assert forall|a: int, b: int, kb: int|
            #![trigger indexed(items, kb), nst.distinct_ticks[a], nst.distinct_ticks[b]]
            0 <= a < b < nst.distinct_ticks.len() && 0 <= kb < items.len() && indexed(items, kb) && tick_of(items[kb])
                == nst.distinct_ticks[b] implies tick_before(items, nst.distinct_ticks[a], kb) by {
            assert(kb < items.len() - 1);
            assert(st.distinct_ticks[a] == nst.distinct_ticks[a]);
            assert(st.distinct_ticks[b] == nst.distinct_ticks[b]);
            assert(indexed(items, kb) && tick_of(items[kb]) == st.distinct_ticks[b]);
            assert(tick_before(items, st.distinct_ticks[a], kb));
        }
    }
    assert forall|p: (usize, i32)| #[trigger] nst.full_packets.contains(p) <==> indexed_full_packet(items, p) by {
        if indexed_full_packet(items, p) {
            let k = choose|k: int|
                #[trigger] indexed(items, k) && is_cmd(items[k], command::FULL_PACKET) && p == position_of(items[k]);
            assert(k < items.len() - 1);
        }
    }
    assert forall|t: i32| #[trigger] nst.distinct_ticks.contains(t) <==> indexed_tick(items, t) by {
        if indexed_tick(items, t) {
            let k = choose|k: int| #[trigger] indexed(items, k) && items[k] is Frame && tick_of(items[k]) == t;
            assert(k < items.len() - 1);
        }
    }
}

/// Appending the tick of the last frame, when it is new and not negative,
/// keeps the ticks in the order they first occur.
proof fn lemma_tick_order_step(items: Seq<StreamItem>, old_ticks: Seq<i32>, new_ticks: Seq<i32>, t: i32)
    requires
        items.len() > 0,
        indexed(items, items.len() - 1),
        tick_of(items[items.len() - 1]) == t,
        forall|u: i32| #[trigger] old_ticks.contains(u) <==> (u >= 0 && exists|k: int|
            #[trigger] indexed(items, k) && k < items.len() - 1 && items[k] is Frame && tick_of(items[k]) == u),
        ticks_order_upto(items, old_ticks, items.len() - 1),
        new_ticks == (if t >= 0 && !old_ticks.contains(t) {
            old_ticks.push(t)
        } else {
            old_ticks
        }),
    ensures
        ticks_in_first_order(items, new_ticks),
{
    let last = items.len() - 1;
    assert forall|a: int, b: int, kb: int|
        #![trigger indexed(items, kb), new_ticks[a], new_ticks[b]]
        0 <= a < b < new_ticks.len() && 0 <= kb < items.len() && indexed(items, kb) && tick_of(items[kb])
            == new_ticks[b] implies exists|ka: int|
        0 <= ka < kb && #[trigger] indexed(items, ka) && tick_of(items[ka]) == new_ticks[a] by {
        let ta = new_ticks[a];
        let tb = new_ticks[b];
        assert(old_ticks[a] == ta);
        assert(old_ticks.contains(ta));
        if b < old_ticks.len() {
            assert(old_ticks[b] == tb);
            assert(old_ticks.contains(tb));
            if kb < last {
                assert(indexed(items, kb) && old_ticks[a] == ta && old_ticks[b] == tb);
            } else {
                let k2 = choose|k: int|
                    #[trigger] indexed(items, k) && k < items.len() - 1 && items[k] is Frame && tick_of(items[k]) == tb;
                assert(indexed(items, k2) && old_ticks[a] == ta && old_ticks[b] == tb);
                let ka = choose|ka: int| 0 <= ka < k2 && #[trigger] indexed(items, ka) && tick_of(items[ka]) == old_ticks[a];
                assert(0 <= ka < kb && indexed(items, ka) && tick_of(items[ka]) == ta);
            }
        } else {
            assert(tb == t);
            assert(!old_ticks.contains(t));
            if kb < last {
                assert(indexed(items, kb) && kb < items.len() - 1 && items[kb] is Frame && tick_of(items[kb]) == t);
                assert(t >= 0);
                assert(old_ticks.contains(t));
            }
            let ka = choose|k: int|
                #[trigger] indexed(items, k) && k < items.len() - 1 && items[k] is Frame && tick_of(items[k]) == ta;
            assert(0 <= ka < kb);
        }
    }
    assert(ticks_order_upto(items, new_ticks, items.len() as int));
}

/// One indexing step keeps [`index_contents`].
proof fn lemma_index_step_contents(items: Seq<StreamItem>, st: IndexState, f: FrameModel)
    requires
        items.len() > 0,
        items.last() == StreamItem::Frame(f),
        !st.stopped,
        st.stopped == stop_before(items, items.len() - 1),
        st.past_sync == sync_before(items, items.len() - 1),
        forall|p: (usize, i32)| #[trigger] st.full_packets.contains(p) <==> (exists|k: int|
            #[trigger] indexed(items, k) && k < items.len() - 1 && is_cmd(items[k], command::FULL_PACKET) && p == position_of(items[k])),
        forall|t: i32| #[trigger] st.distinct_ticks.contains(t) <==> (t >= 0 && exists|k: int|
            #[trigger] indexed(items, k) && k < items.len() - 1 && items[k] is Frame && tick_of(items[k]) == t),
        ticks_order_upto(items, st.distinct_ticks, items.len() - 1),
    ensures
        index_contents(items, index_step(st, f)),
{
    let last = items.len() - 1;
    let nst = index_step(st, f);
    assert(items[last] == StreamItem::Frame(f));
    let cmd = f.header.cmd;
    assert(is_cmd(items[last], cmd));
    assert(stop_before(items, items.len() as int) == (cmd == command::STOP)) by {
        if cmd == command::STOP {
            assert(is_cmd(items[last], command::STOP));
        }
        if stop_before(items, items.len() as int) && cmd != command::STOP {
            let j = choose|j: int| 0 <= j < items.len() && #[trigger] is_cmd(items[j], command::STOP);
            assert(j < last);
            assert(stop_before(items, last));
        }
    }
    assert(sync_before(items, items.len() as int) == (st.past_sync || cmd == command::SYNC_TICK)) by {
        if cmd == command::SYNC_TICK {
            assert(is_cmd(items[last], command::SYNC_TICK));
            assert(!stop_before(items, last));
        }
        if sync_before(items, items.len() as int) && !st.past_sync {
            let j = choose|j: int|
                0 <= j < items.len() && #[trigger] is_cmd(items[j], command::SYNC_TICK)
                    && !stop_before(items, j);
            if j < last {
                assert(sync_before(items, last));
            }
        }
        if st.past_sync {
            let j = choose|j: int|
                0 <= j < last && #[trigger] is_cmd(items[j], command::SYNC_TICK)
                    && !stop_before(items, j);
            assert(0 <= j < items.len());
        }
    }
    if cmd == command::SYNC_TICK || cmd == command::STOP || !st.past_sync {
        assert(!indexed(items, last));
        lemma_index_contents_last(items, st, nst);
    } else {
        assert(indexed(items, last));
        assert forall|p: (usize, i32)| #[trigger] nst.full_packets.contains(p) <==> indexed_full_packet(items, p) by {
            if indexed_full_packet(items, p) {
                let k = choose|k: int|
                    #[trigger] indexed(items, k) && is_cmd(items[k], command::FULL_PACKET) && p == position_of(items[k]);
                if k < last {
                    assert(indexed(items, k) && k < items.len() - 1 && is_cmd(items[k], command::FULL_PACKET) && p
                        == position_of(items[k]));
                    assert(st.full_packets.contains(p));
                    let i = choose|i: int| 0 <= i < st.full_packets.len() && st.full_packets[i] == p;
                    if cmd == command::FULL_PACKET {
                        assert(nst.full_packets[i] == p);
                    }
                } else {
                    assert(nst.full_packets[nst.full_packets.len() - 1] == p);
                }
            }
            if nst.full_packets.contains(p) {
                let i = choose|i: int| 0 <= i < nst.full_packets.len() && nst.full_packets[i] == p;
                if i < st.full_packets.len() {
                    assert(st.full_packets[i] == p);
                    assert(st.full_packets.contains(p));
                    let k = choose|k: int|
                        #[trigger] indexed(items, k) && k < items.len() - 1 && is_cmd(items[k], command::FULL_PACKET)
                            && p == position_of(items[k]);
                    assert(indexed(items, k));
                } else {
                    assert(p == (f.offset, f.header.tick));
                    assert(is_cmd(items[last], command::FULL_PACKET) && p == position_of(items[last]));
                    assert(indexed(items, last));
                }
            }
        }
        assert forall|t: i32| #[trigger] nst.distinct_ticks.contains(t) <==> indexed_tick(items, t) by {
            if indexed_tick(items, t) {
                let k = choose|k: int| #[trigger] indexed(items, k) && items[k] is Frame && tick_of(items[k]) == t;
                if k < last {
                    assert(indexed(items, k) && k < items.len() - 1 && items[k] is Frame && tick_of(items[k]) == t);
                    assert(st.distinct_ticks.contains(t));
                    let i = choose|i: int| 0 <= i < st.distinct_ticks.len() && st.distinct_ticks[i] == t;
                    assert(nst.distinct_ticks[i] == t);
                } else if !st.distinct_ticks.contains(t) {
                    assert(nst.distinct_ticks[nst.distinct_ticks.len() - 1] == t);
                } else {
                    let i = choose|i: int| 0 <= i < st.distinct_ticks.len() && st.distinct_ticks[i] == t;
                    assert(nst.distinct_ticks[i] == t);
                }
            }
            if nst.distinct_ticks.contains(t) {
                let i = choose|i: int| 0 <= i < nst.distinct_ticks.len() && nst.distinct_ticks[i] == t;
                if i < st.distinct_ticks.len() {
                    assert(st.distinct_ticks[i] == t);
                    assert(st.distinct_ticks.contains(t));
                    let k = choose|k: int|
                        #[trigger] indexed(items, k) && k < items.len() - 1 && items[k] is Frame && tick_of(items[k]) == t;
                    assert(indexed(items, k));
                } else {
                    assert(t == f.header.tick && t >= 0);
                    assert(tick_of(items[last]) == t);
                    assert(indexed(items, last));
                }
            }
        }
        lemma_tick_order_step(items, st.distinct_ticks, nst.distinct_ticks, f.header.tick);
    }
}

/// What constructing a demo over `data` gives: a file too long for its
/// bit positions to fit a `usize` is refused with a limit error, and any
/// other file gives what parsing its header gives.
pub open spec fn construct_result(data: Seq<u8>, r: Result<DemoHeader, Error>) -> bool {
    if data.len() * 8 > usize::MAX {
        r == Err::<DemoHeader, Error>(
            Error::LimitExceeded {
                resource: "demo file bytes",
                limit: (usize::MAX / 8) as usize,
                actual: data.len() as usize,
            },
        )
    } else {
        header_parse_result(data, r)
    }
}

/// The header of a validated demo, or the error that refused it.
pub open spec fn header_of<'a>(r: Result<Demo<'a>, Error>) -> Result<DemoHeader, Error> {
    match r {
        Ok(d) => Ok(d.spec_header()),
        Err(e) => Err(e),
    }
}

/// Validated borrowed PBDEMS2 file with command iteration and indexing.
#[derive(Debug, Clone, Copy)]
pub struct Demo<'a> {
    data: &'a [u8],
    limits: DecodeLimits,
    header: DemoHeader,
}

impl<'a> Demo<'a> {
    /// The whole file.
    pub closed spec fn spec_data(&self) -> Seq<u8> {
        self.data@
    }

    /// The limits in force.
    pub closed spec fn spec_limits(&self) -> LimitsModel {
        self.limits@
    }

    /// The parsed header.
    pub closed spec fn spec_header(&self) -> DemoHeader {
        self.header
    }

    /// The file is at least a header long and its bit length fits a `usize`.
    pub closed spec fn wf(&self) -> bool {
        &&& self.data@.len() >= 16
        &&& self.data@.len() * 8 <= usize::MAX
    }

    /// The command stream after the header.
    pub open spec fn items(&self) -> Seq<StreamItem> {
        stream_items(self.spec_data().skip(16), 16, 0, 0, self.spec_limits())
    }

    /// Frames lie inside the file after its header, each after a command
    /// header of at least three bytes, and follow one another from the end
    /// of the file header without gaps; so the offset of every frame is a
    /// valid starting point for [`Demo::commands_from`]. Frames are
    /// numbered from zero, and each holds the command header at its offset
    /// and borrows the `body_size` bytes that end at its end offset. Only
    /// the last item can be a failure. When none is, the frames cover the
    /// file from the end of its header to its last byte.
    pub proof fn lemma_frame_layout(&self)
        requires
            self.wf(),
        ensures
            frames_within(self.items(), 16, self.spec_data().len() as int),
            frames_in_order(self.items()),
            frames_contiguous(self.items(), 16, self.spec_data().len() as int),
            frames_numbered(self.items(), self.spec_data().skip(16), 16, 0),
            failure_ends(self.items()),
    {
        let rest = self.spec_data().skip(16);
        lemma_failure_ends(rest, 16, 0, 0, self.spec_limits());
        lemma_items_shape(rest, 16, 0, 0, self.spec_limits());
        lemma_items_contiguous(rest, 16, 0, 0, self.spec_limits());
        lemma_items_numbered(rest, 16, 0, 0, self.spec_limits());
    }

    /// The offsets that the index reports are valid starting points for
    /// [`Demo::commands_from`]: the resume offset and the keyframes are
    /// offsets of frames inside the file, keyframes are in file order, and
    /// the index's ticks are non-negative and distinct. The keyframes are
    /// exactly the full packets, and the ticks exactly the non-negative ticks,
    /// of the frames after a `DEM_SyncTick` and before the first `DEM_Stop`;
    /// the ticks are listed in the order they first occur there.
    pub proof fn lemma_index_layout(&self)
        requires
            self.wf(),
        ensures
            index_of_items(self.items()) matches Ok(st) ==> index_facts(
                self.items(),
                st,
                16,
                self.spec_data().len() as int,
            ) && index_contents(self.items(), st),
    {
        self.lemma_frame_layout();
        lemma_index_facts(self.items(), 16, self.spec_data().len() as int);
        lemma_index_contents(self.items());
    }

    /// Resuming at a frame: the offset of the frame at place `k` of the
    /// command stream lies in the range that [`Demo::commands_from`]
    /// accepts, and the stream read from there holds the items from place
    /// `k` on, the same but for frames being numbered again from zero.
    pub proof fn lemma_resume_at_frame(&self, k: int)
        requires
            self.wf(),
            0 <= k < self.items().len(),
            self.items()[k] is Frame,
        ensures
            16 <= self.items()[k]->Frame_0.offset <= self.spec_data().len(),
            renumbered(
                stream_items(
                    self.spec_data().skip(self.items()[k]->Frame_0.offset as int),
                    self.items()[k]->Frame_0.offset as nat,
                    0,
                    0,
                    self.spec_limits(),
                ),
                k as nat,
            ) == self.items().skip(k),
    {
        let d = self.spec_data().skip(16);
        let lim = self.spec_limits();
        let o = self.items()[k]->Frame_0.offset;
        lemma_items_shape(d, 16, 0, 0, lim);
        lemma_items_suffix(d, 16, 0, 0, lim, k);
        lemma_items_shift(d, 16, (o - 16) as nat, k as nat, lim);
        assert(d.skip(o - 16) =~= self.spec_data().skip(o as int));
    }

    /// Validate and borrow a complete PBDEMS2 file using default limits.
    pub fn new(data: &'a [u8]) -> (r: Result<Self, Error>)
        ensures
            construct_result(data@, header_of(r)),
            r matches Ok(d) ==> d.wf() && d.spec_data() == data@ && d.spec_limits()
                == crate::limits::default_limits(),
    {
        Self::with_limits(data, DecodeLimits::default())
    }

    /// Validate and borrow a complete PBDEMS2 file with custom limits.
    pub fn with_limits(data: &'a [u8], limits: DecodeLimits) -> (r: Result<Self, Error>)
        ensures
            construct_result(data@, header_of(r)),
            r matches Ok(d) ==> d.wf() && d.spec_data() == data@ && d.spec_limits() == limits@,
    {
        if data.len() > usize::MAX / 8 {
            return Err(Error::LimitExceeded { resource: "demo file bytes", limit: usize::MAX / 8, actual: data.len() });
        }
        match DemoHeader::parse(data) {
            Ok(header) => Ok(Demo { data, limits, header }),
            Err(e) => Err(e),
        }
    }

    /// Parsed fixed PBDEMS2 file header.
    pub fn header(&self) -> (r: DemoHeader)
        ensures
            r == self.spec_header(),
    {
        self.header
    }

    /// Complete encoded file bytes.
    pub fn data(&self) -> (r: &'a [u8])
        ensures
            r@ == self.spec_data(),
    {
        self.data
    }

    /// Limits applied by iterators and body decompression.
    pub fn limits(&self) -> (r: DecodeLimits)
        ensures
            r@ == self.spec_limits(),
    {
        self.limits
    }

    /// Iterate commands beginning immediately after the fixed file header.
    pub fn commands(&self) -> (r: CommandIter<'a>)
        requires
            self.wf(),
        ensures
            r.wf(),
            r.remaining() == self.items(),
            r.spec_data() == self.spec_data().skip(16),
            r.spec_data().len() * 8 <= usize::MAX,
            r.spec_base() == 16,
            r.spec_limits() == self.spec_limits(),
    {
        let rest = vstd::slice::slice_subrange(self.data, HEADER_SIZE, self.data.len());
        assert(rest@ =~= self.data@.skip(16));
        CommandIter::new(rest, HEADER_SIZE, self.limits)
    }

    /// Iterate commands from an absolute byte offset.
    pub fn commands_from(&self, offset: usize) -> (r: Result<CommandIter<'a>, Error>)
        requires
            self.wf(),
        ensures
            16 <= offset <= self.spec_data().len() ==> (r matches Ok(it) && it.wf() && it.remaining()
                == stream_items(self.spec_data().skip(offset as int), offset as nat, 0, 0, self.spec_limits())),
            !(16 <= offset <= self.spec_data().len()) ==> (r matches Err(Error::Parse { context })
                && context@ == "command offset "@ + crate::text::digits(offset as nat)
                + " outside valid range 16..="@ + crate::text::digits(self.spec_data().len())),
    {
        if offset < HEADER_SIZE || offset > self.data.len() {
            let mut context = String::from_str("command offset ");
            push_decimal(&mut context, offset as u64);
            context.append(" outside valid range 16..=");
            push_decimal(&mut context, self.data.len() as u64);
            return Err(Error::Parse { context });
        }
        let rest = vstd::slice::slice_subrange(self.data, offset, self.data.len());
        assert(rest@ =~= self.data@.skip(offset as int));
        Ok(CommandIter::new(rest, offset, self.limits))
    }

    /// Build the header-only seek index.
    pub fn index(&self) -> (r: Result<DemoIndex, Error>)
        requires
            self.wf(),
        ensures
            match index_of_items(self.items()) {
                Ok(st) => r matches Ok(ix) && ix.spec_full_packets() == st.full_packets
                    && ix.spec_distinct_ticks() == st.distinct_ticks && ix.spec_stream_start()
                    == st.stream_start,
                Err((offset, header, failure)) => r matches Err(e) && item_error_is(e, offset, header, failure),
            },
    {
        let ghost items = self.items();
        let mut it = self.commands();
        let mut full_packets: Vec<CommandPosition> = Vec::new();
        let mut distinct_ticks: Vec<i32> = Vec::new();
        let mut stream_start: Option<usize> = None;
        let mut past_sync = false;
        let mut seen_ticks: Vec<i32> = Vec::new();
        let ghost mut seen: Seq<StreamItem> = Seq::empty();
        proof {
            assert(positions_view(full_packets@) =~= Seq::empty());
            assert(seen + it.remaining() =~= items);
        }
        loop
            invariant
                it.wf(),
                items == self.items(),
                items == seen + it.remaining(),
                index_of_items(seen) == Ok::<IndexState, (usize, Option<CmdHeader>, Failure)>(
                    IndexState {
                        full_packets: positions_view(full_packets@),
                        distinct_ticks: distinct_ticks@,
                        stream_start,
                        past_sync,
                        stopped: false,
                    },
                ),
                strictly_sorted(seen_ticks@),
                seen_ticks@.to_set() == distinct_ticks@.to_set(),
            decreases it.remaining().len(),
        {
            let ghost before = it.remaining();
            proof {
                assert(seen + before =~= items);
            }
            let frame = match it.next() {
                None => {
                    assert(seen =~= items);
                    return Ok(DemoIndex { full_packets, distinct_ticks, stream_start });
                },
                Some(Err(e)) => {
                    proof {
                        lemma_index_prefix_fail(seen, before);
                    }
                    return Err(e);
                },
                Some(Ok(f)) => f,
            };
            let ghost fm = frame.model();
            proof {
                assert((seen.push(before[0])).drop_last() =~= seen);
                seen = seen.push(before[0]);
                assert(items =~= seen + it.remaining());
            }
            let header = *frame.header();
            if header.cmd == command::SYNC_TICK {
                past_sync = true;
                stream_start = Some(frame.end_offset());
                continue;
            }
            if header.cmd == command::STOP {
                proof {
                    lemma_index_stopped(seen, it.remaining());
                    assert(seen + it.remaining() =~= items);
                }
                return Ok(DemoIndex { full_packets, distinct_ticks, stream_start });
            }
            if !past_sync {
                continue;
            }
            if header.cmd == command::FULL_PACKET {
                let ghost prev = full_packets@;
                let p = CommandPosition::new(frame.offset(), header.tick);
                full_packets.push(p);
                proof {
                    assert(positions_view(full_packets@) =~= positions_view(prev).push((fm.offset, header.tick)));
                }
            }
            if header.tick >= 0 {
                let ghost listed = distinct_ticks@;
                proof {
                    assert(seen_ticks@.to_set().contains(header.tick) == listed.contains(header.tick));
                }
                if insert_sorted(&mut seen_ticks, header.tick) {
                    distinct_ticks.push(header.tick);
                    proof {
                        assert(distinct_ticks@.to_set() =~= listed.to_set().insert(header.tick)) by {
                            assert forall|y: i32| distinct_ticks@.contains(y) <==> listed.contains(y) || y == header.tick by {
                                if distinct_ticks@.contains(y) {
                                    let k = choose|k: int| 0 <= k < distinct_ticks@.len() && distinct_ticks@[k] == y;
                                    if k < listed.len() {
                                        assert(listed[k] == y);
                                    }
                                }
                                if listed.contains(y) {
                                    let k = choose|k: int| 0 <= k < listed.len() && listed[k] == y;
                                    assert(distinct_ticks@[k] == y);
                                }
                                if y == header.tick {
                                    assert(distinct_ticks@[listed.len() as int] == y);
                                }
                            }
                        }
                    }
                }
            }
        }
    }
}

/// After a failure item, the index of the whole stream is that failure.
proof fn lemma_index_prefix_fail(seen: Seq<StreamItem>, rest: Seq<StreamItem>)
    requires
        rest.len() > 0,
        rest[0] is Fail,
        index_of_items(seen) matches Ok(st) && !st.stopped,
    ensures
        index_of_items(seen + rest) == match rest[0] {
            StreamItem::Fail { offset, header, failure } => Err::<IndexState, (usize, Option<CmdHeader>, Failure)>((offset, header, failure)),
            _ => index_of_items(seen),
        },
    decreases rest.len(),
{
    if rest.len() == 1 {
        assert((seen + rest).drop_last() =~= seen);
    } else {
        lemma_index_prefix_fail(seen, rest.drop_last());
        assert((seen + rest).drop_last() =~= seen + rest.drop_last());
    }
}

/// Appending items to an index that has stopped changes nothing.
proof fn lemma_index_stopped(seen: Seq<StreamItem>, rest: Seq<StreamItem>)
    requires
        index_of_items(seen) matches Ok(st) && st.stopped,
    ensures
        index_of_items(seen + rest) == index_of_items(seen),
    decreases rest.len(),
{
    if rest.len() > 0 {
        lemma_index_stopped(seen, rest.drop_last());
        assert((seen + rest).drop_last() =~= seen + rest.drop_last());
    } else {
        assert(seen + rest =~= seen);
    }
}

} // verus!
