//! Game-independent PBDEMS2 command framing.
//!
//! A PBDEMS2 file is a 16-byte header (the magic `PBDEMS2\0` and two
//! little-endian offsets) followed by commands. Each command is three
//! varints — command ID with a compression flag, tick, body size — and the
//! body, optionally Snappy-compressed.

use vstd::prelude::*;

use crate::error::{failure_is, Error, Failure};
use crate::io::bits::{byte_bits_needed, low_u32, varint_read, VarintRead};
use crate::io::{lemma_uvarint_round_trip, uvarint_bytes, ByteReader};
use crate::limits::{DecodeLimits, LimitsModel};
use crate::snappy::{corrupt_len, inflate_into, inflate_outcome, Inflated};
use crate::text::{digits, push_decimal};

pub mod command;
mod stream;

pub use stream::{
    CommandFrame, CommandIter, CommandPosition, Demo, DemoIndex, FrameModel, IndexState,
    COMPRESSED_FLAG, HEADER_SIZE, StreamItem, construct_result, header_of, index_of_items, item_error_is, next_item,
    positions_view, frames_contiguous, frames_numbered, frames_in_order, frames_within,
    frames_numbered_from, index_facts, lemma_index_facts, lemma_items_numbered,
    lemma_items_shift, lemma_items_suffix, renumber, renumbered, stream_items, stop_before,
    sync_before, indexed, indexed_full_packet, indexed_tick, index_contents, lemma_index_contents,
    is_cmd, position_of, tick_of, failure_ends, lemma_failure_ends, tick_before,
    ticks_in_first_order, ticks_order_upto,
};

verus! {

/// Magic bytes at the beginning of every Source 2 demo: `PBDEMS2\0`.
pub const MAGIC: [u8; 8] = [80, 66, 68, 69, 77, 83, 50, 0];

/// The magic bytes as a sequence.
pub open spec fn magic() -> Seq<u8> {
    seq![80u8, 66, 68, 69, 77, 83, 50, 0]
}

/// Parsed fields from the fixed 16-byte PBDEMS2 file header.
#[derive(Debug, Clone, Copy, PartialEq, Eq, Structural)]
#[non_exhaustive]
pub struct DemoHeader {
    file_info_offset: Option<usize>,
    spawn_groups_offset: Option<usize>,
}

/// The little-endian `u32` stored at `start`.
pub open spec fn le_u32_at(data: Seq<u8>, start: int) -> u32 {
    (data[start] as u32 + data[start + 1] as u32 * 256 + data[start + 2] as u32 * 65536 + data[start
        + 3] as u32 * 16777216) as u32
}

/// Message of a header offset outside the command stream.
pub open spec fn offset_message(field: &'static str, offset: usize, len: nat) -> Seq<char> {
    field@ + " header offset "@ + digits(offset as nat) + " outside command stream 16.."@ + digits(len)
}

/// What the header offset at `start` reads as: absent when zero, an error
/// when it does not point into the command stream.
pub open spec fn optional_offset(data: Seq<u8>, start: int, field: &'static str) -> Result<
    Option<usize>,
    Seq<char>,
> {
    let raw = le_u32_at(data, start);
    if raw == 0 {
        Ok(None)
    } else if 16 <= raw < data.len() {
        Ok(Some(raw as usize))
    } else {
        Err(offset_message(field, raw as usize, data.len()))
    }
}

/// Message of a file shorter than its header.
pub open spec fn too_small_message(header_size: usize, len: nat) -> Seq<char> {
    "file too small for demo header: expected at least "@ + digits(header_size as nat)
        + " bytes, got "@ + digits(len)
}

/// `r` is what checking the magic and the size of a header of
/// `header_size` bytes gives.
pub open spec fn header_check(data: Seq<u8>, header_size: usize, r: Result<(), Error>) -> bool {
    if data.len() < header_size {
        r matches Err(Error::Parse { context }) && context@ == too_small_message(header_size, data.len())
    } else if data.take(8) != magic() {
        r matches Err(Error::InvalidMagic { got }) && got@ == data.take(8)
    } else {
        r is Ok
    }
}

impl DemoHeader {
    /// Parse the magic prefix and validate both optional command offsets.
    pub fn parse(data: &[u8]) -> (r: Result<Self, Error>)
        ensures
            header_parse_result(data@, r),
    {
        match verify_header(data, HEADER_SIZE) {
            Ok(()) => {},
            Err(e) => {
                return Err(e);
            },
        }
        let file_info_offset = match read_optional_header_offset(data, 8, "file-info") {
            Ok(v) => v,
            Err(e) => {
                return Err(e);
            },
        };
        let spawn_groups_offset = match read_optional_header_offset(data, 12, "spawn-groups") {
            Ok(v) => v,
            Err(e) => {
                return Err(e);
            },
        };
        Ok(DemoHeader { file_info_offset, spawn_groups_offset })
    }

    /// The file-info offset.
    pub closed spec fn spec_file_info_offset(&self) -> Option<usize> {
        self.file_info_offset
    }

    /// The spawn-groups offset.
    pub closed spec fn spec_spawn_groups_offset(&self) -> Option<usize> {
        self.spawn_groups_offset
    }

    /// Absolute offset of DEM_FileInfo, or None when the header stores zero.
    pub fn file_info_offset(&self) -> (r: Option<usize>)
        ensures
            r == self.spec_file_info_offset(),
    {
        self.file_info_offset
    }

    /// Absolute offset of DEM_SpawnGroups, or None when the header stores zero.
    pub fn spawn_groups_offset(&self) -> (r: Option<usize>)
        ensures
            r == self.spec_spawn_groups_offset(),
    {
        self.spawn_groups_offset
    }
}

/// Read the header offset at `start`.
fn read_optional_header_offset(data: &[u8], start: usize, field: &'static str) -> (r: Result<
    Option<usize>,
    Error,
>)
    requires
        start + 4 <= data@.len(),
    ensures
        match optional_offset(data@, start as int, field) {
            Ok(v) => r == Ok::<Option<usize>, Error>(v),
            Err(m) => r matches Err(Error::Parse { context }) && context@ == m,
        },
{
    let raw: u32 = data[start] as u32 + data[start + 1] as u32 * 256 + data[start + 2] as u32 * 65536
        + data[start + 3] as u32 * 16777216;
    if raw == 0 {
        return Ok(None);
    }
    let offset = raw as usize;
    if offset < HEADER_SIZE || offset >= data.len() {
        let mut context = String::from_str(field);
        context.append(" header offset ");
        push_decimal(&mut context, offset as u64);
        context.append(" outside command stream 16..");
        push_decimal(&mut context, data.len() as u64);
        return Err(Error::Parse { context });
    }
    Ok(Some(offset))
}

/// Verify the PBDEMS2 magic prefix and fixed-size file header.
pub fn verify_header(data: &[u8], header_size: usize) -> (r: Result<(), Error>)
    requires
        data@.len() >= 8 || data@.len() < header_size,
    ensures
        header_check(data@, header_size, r),
{
    if data.len() < header_size {
        let mut context = String::from_str("file too small for demo header: expected at least ");
        push_decimal(&mut context, header_size as u64);
        context.append(" bytes, got ");
        push_decimal(&mut context, data.len() as u64);
        return Err(Error::Parse { context });
    }
    let mut got = [0u8; 8];
    let mut i: usize = 0;
    let mut same = true;
    while i < 8
        invariant
            i <= 8,
            data@.len() >= 8,
            got@.len() == 8,
            forall|k: int| 0 <= k < i ==> got@[k] == data@[k],
            same == (forall|k: int| 0 <= k < i ==> data@[k] == magic()[k]),
        decreases 8 - i,
    {
        got[i] = data[i];
        if data[i] != MAGIC[i] {
            same = false;
        }
        i = i + 1;
    }
    if !same {
        assert(got@ =~= data@.take(8));
        return Err(Error::InvalidMagic { got });
    }
    assert(data@.take(8) =~= magic());
    Ok(())
}

/// `r` is what parsing the fixed header of `data` gives: the size and
/// magic checks, then the file-info and spawn-groups offsets.
pub open spec fn header_parse_result(data: Seq<u8>, r: Result<DemoHeader, Error>) -> bool {
    if data.len() < 16 {
        r matches Err(Error::Parse { context }) && context@ == too_small_message(16, data.len())
    } else if data.take(8) != magic() {
        r matches Err(Error::InvalidMagic { got }) && got@ == data.take(8)
    } else {
        match (optional_offset(data, 8, "file-info"), optional_offset(data, 12, "spawn-groups")) {
            (Err(m), _) => r matches Err(Error::Parse { context }) && context@ == m,
            (Ok(_), Err(m)) => r matches Err(Error::Parse { context }) && context@ == m,
            (Ok(a), Ok(b)) => r matches Ok(h) && h.spec_file_info_offset() == a
                && h.spec_spawn_groups_offset() == b,
        }
    }
}

/// Header shared by every command in a demo stream.
#[derive(Debug, Clone, Copy, PartialEq, Eq, Structural)]
#[non_exhaustive]
pub struct CmdHeader {
    /// Command identifier with compression flags removed.
    pub cmd: i32,
    /// Demo tick associated with the command.
    pub tick: i32,
    /// Whether the command body uses Snappy compression.
    pub compressed: bool,
    /// Command payload size before decompression.
    pub body_size: u32,
}

impl CmdHeader {
    /// Construct a command header, primarily for adapters and test fixtures.
    pub fn new(cmd: i32, tick: i32, compressed: bool, body_size: u32) -> (r: Self)
        ensures
            r == (CmdHeader { cmd, tick, compressed, body_size }),
    {
        CmdHeader { cmd, tick, compressed, body_size }
    }
}

/// How reading a command header from some bytes ends.
pub enum HeaderRead {
    /// The header and the number of bytes it took.
    Read { header: CmdHeader, len: nat },
    /// The read failed after consuming `consumed` bytes.
    Fail { failure: Failure, consumed: nat },
}

/// The failure of a varint read that produced no value.
pub open spec fn varint_failure(r: VarintRead, len: nat) -> Failure {
    match r {
        VarintRead::Truncated { at } => Failure::Exact(
            Error::Overflow { needed: 8, available: (8 * (len - at)) as usize },
        ),
        _ => Failure::AnyParse,
    }
}

/// A command header at the start of `bytes`: raw command ID, tick and
/// body size as varints of at most five bytes, with `flag` marking
/// compression in the raw ID.
pub open spec fn cmd_header_read(bytes: Seq<u8>, flag: u32) -> HeaderRead {
    match varint_read(bytes, 5) {
        VarintRead::Value { value: v1, len: l1 } => match varint_read(bytes.skip(l1 as int), 5) {
            VarintRead::Value { value: v2, len: l2 } => match varint_read(
                bytes.skip((l1 + l2) as int),
                5,
            ) {
                VarintRead::Value { value: v3, len: l3 } => {
                    let raw = low_u32(v1);
                    HeaderRead::Read {
                        header: CmdHeader {
                            cmd: (raw & !flag) as i32,
                            tick: low_u32(v2) as i32,
                            compressed: raw & flag != 0,
                            body_size: low_u32(v3),
                        },
                        len: l1 + l2 + l3,
                    }
                },
                r => HeaderRead::Fail {
                    failure: varint_failure(r, (bytes.len() - l1 - l2) as nat),
                    consumed: l1 + l2,
                },
            },
            r => HeaderRead::Fail {
                failure: varint_failure(r, (bytes.len() - l1) as nat),
                consumed: l1,
            },
        },
        r => HeaderRead::Fail { failure: varint_failure(r, bytes.len()), consumed: 0 },
    }
}

/// A command header written as three protobuf varints, the raw command,
/// the tick and the body size, reads back as the header they hold, taking
/// exactly those bytes: the command without the compression flag, the
/// tick, whether the flag was set, and the body size.
pub proof fn lemma_cmd_header_of_varints(raw: u32, tick: u32, size: u32, flag: u32, rest: Seq<u8>)
    ensures
        cmd_header_read(
            uvarint_bytes(raw as nat) + uvarint_bytes(tick as nat) + uvarint_bytes(size as nat) + rest,
            flag,
        ) == (HeaderRead::Read {
            header: CmdHeader {
                cmd: (raw & !flag) as i32,
                tick: tick as i32,
                compressed: raw & flag != 0,
                body_size: size,
            },
            len: uvarint_bytes(raw as nat).len() + uvarint_bytes(tick as nat).len() + uvarint_bytes(
                size as nat,
            ).len(),
        }),
{
    vstd::arithmetic::power2::lemma2_to64();
    let a = uvarint_bytes(raw as nat);
    let b = uvarint_bytes(tick as nat);
    let c = uvarint_bytes(size as nat);
    let bytes = a + b + c + rest;
    lemma_uvarint_round_trip(raw as nat, b + c + rest);
    assert(bytes =~= a + (b + c + rest));
    lemma_uvarint_round_trip(tick as nat, c + rest);
    assert(bytes.skip(a.len() as int) =~= b + (c + rest));
    lemma_uvarint_round_trip(size as nat, rest);
    assert(bytes.skip((a.len() + b.len()) as int) =~= c + rest);
    assert(low_u32(raw as nat) == raw);
    assert(low_u32(tick as nat) == tick);
    assert(low_u32(size as nat) == size);
}

/// Read one command header from the current byte position.
pub fn read_cmd_header(reader: &mut ByteReader<'_>, compressed_flag: u32) -> (r: Result<CmdHeader, Error>)
    requires
        old(reader).wf(),
    ensures
        final(reader).wf(),
        final(reader).spec_data() == old(reader).spec_data(),
        match cmd_header_read(old(reader).spec_rest(), compressed_flag) {
            HeaderRead::Read { header, len } => r == Ok::<CmdHeader, Error>(header)
                && final(reader).spec_pos() == old(reader).spec_pos() + len,
            HeaderRead::Fail { failure, consumed } => (r matches Err(e) && failure_is(e, failure))
                && final(reader).spec_pos() == old(reader).spec_pos() + consumed,
        },
{
    let ghost rest = reader.spec_rest();
    let ghost p0 = reader.spec_pos();
    proof {
        reader.lemma_valid();
    }
    let raw_cmd = match reader.read_uvarint32() {
        Ok(v) => v,
        Err(e) => {
            return Err(e);
        },
    };
    let ghost l1 = (reader.spec_pos() - p0) as nat;
    proof {
        reader.lemma_valid();
        assert(reader.spec_rest() =~= rest.skip(l1 as int));
    }
    let tick = match reader.read_uvarint32() {
        Ok(v) => v,
        Err(e) => {
            return Err(e);
        },
    };
    let ghost l2 = (reader.spec_pos() - p0 - l1) as nat;
    proof {
        reader.lemma_valid();
        assert(reader.spec_rest() =~= rest.skip((l1 + l2) as int));
    }
    let body_size = match reader.read_uvarint32() {
        Ok(v) => v,
        Err(e) => {
            return Err(e);
        },
    };
    Ok(
        CmdHeader {
            cmd: (raw_cmd & !compressed_flag) as i32,
            tick: tick as i32,
            compressed: raw_cmd & compressed_flag != 0,
            body_size,
        },
    )
}

/// `r`, the output buffer going from `before` to `after`, and the `consumed`
/// bytes are what reading the body of `header` from `rest` gives, where
/// `reserved` tells whether reserving the output succeeded.
pub open spec fn cmd_body_result(
    rest: Seq<u8>,
    header: CmdHeader,
    lim: LimitsModel,
    before: Seq<u8>,
    after: Seq<u8>,
    consumed: nat,
    reserved: bool,
    r: Result<(), Error>,
) -> bool {
    let n = header.body_size as usize;
    if n > lim.max_command_body_bytes {
        &&& r == Err::<(), Error>(
            Error::LimitExceeded {
                resource: "encoded command body",
                limit: lim.max_command_body_bytes,
                actual: n,
            },
        )
        &&& after == before
        &&& consumed == 0
    } else if n > rest.len() {
        &&& r == Err::<(), Error>(
            Error::Overflow {
                needed: byte_bits_needed(n as nat) as usize,
                available: (8 * rest.len()) as usize,
            },
        )
        &&& after == before
        &&& consumed == 0
    } else {
        let body = rest.take(n as int);
        &&& consumed == n
        &&& if header.compressed {
            let limit = lim.max_decompressed_command_bytes;
            let resource = "decompressed command body";
            match inflate_outcome(body, limit, reserved) {
                Inflated::Bytes(d) => r is Ok && after == d,
                Inflated::OverLimit { actual } => r == Err::<(), Error>(
                    Error::LimitExceeded { resource, limit, actual },
                ) && after.len() == 0,
                Inflated::NoMemory { requested } => r == Err::<(), Error>(
                    Error::Allocation { resource, requested },
                ) && after.len() == 0,
                Inflated::Corrupt => (r matches Err(Error::Decompress(_))) && after.len() == corrupt_len(body),
            }
        } else if reserved {
            r is Ok && after == body
        } else {
            r == Err::<(), Error>(Error::Allocation { resource: "command body", requested: n })
                && after.len() == 0
        }
    }
}

/// Read and, when necessary, decompress a command body into the output
/// buffer, with the default limits.
pub fn read_cmd_body(reader: &mut ByteReader<'_>, header: &CmdHeader, output: &mut Vec<u8>) -> (r: Result<(), Error>)
    requires
        old(reader).wf(),
    ensures
        final(reader).wf(),
        final(reader).spec_data() == old(reader).spec_data(),
        exists|reserved: bool|
            #![trigger cmd_body_result(old(reader).spec_rest(), *header, crate::limits::default_limits(), old(output)@, final(output)@, (final(reader).spec_pos() - old(reader).spec_pos()) as nat, reserved, r)]
            cmd_body_result(
                old(reader).spec_rest(),
                *header,
                crate::limits::default_limits(),
                old(output)@,
                final(output)@,
                (final(reader).spec_pos() - old(reader).spec_pos()) as nat,
                reserved,
                r,
            ),
{
    let limits = DecodeLimits::default();
    read_cmd_body_with_limits(reader, header, output, &limits)
}

/// Limit-aware variant of [`read_cmd_body`]. The output buffer is cleared
/// once the encoded body has been read. A compressed body is decoded into
/// the buffer after it has been sized to the declared length, so a corrupt
/// stream behind a valid length leaves the buffer at that length.
pub fn read_cmd_body_with_limits(
    reader: &mut ByteReader<'_>,
    header: &CmdHeader,
    output: &mut Vec<u8>,
    limits: &DecodeLimits,
) -> (r: Result<(), Error>)
    requires
        old(reader).wf(),
    ensures
        final(reader).wf(),
        final(reader).spec_data() == old(reader).spec_data(),
        final(reader).spec_pos() >= old(reader).spec_pos(),
        exists|reserved: bool|
            #![trigger cmd_body_result(old(reader).spec_rest(), *header, limits@, old(output)@, final(output)@, (final(reader).spec_pos() - old(reader).spec_pos()) as nat, reserved, r)]
            cmd_body_result(
                old(reader).spec_rest(),
                *header,
                limits@,
                old(output)@,
                final(output)@,
                (final(reader).spec_pos() - old(reader).spec_pos()) as nat,
                reserved,
                r,
            ),
{
    let body_size = header.body_size as usize;
    let max = limits.max_command_body_bytes();
    if body_size > max {
        let r = Err(Error::LimitExceeded { resource: "encoded command body", limit: max, actual: body_size });
        assert(cmd_body_result(old(reader).spec_rest(), *header, limits@, old(output)@, output@, (reader.spec_pos() - old(reader).spec_pos()) as nat, true, r));
        return r;
    }
    let body = match reader.read_bytes(body_size) {
        Ok(b) => b,
        Err(e) => {
            let r = Err(e);
            assert(cmd_body_result(old(reader).spec_rest(), *header, limits@, old(output)@, output@, (reader.spec_pos() - old(reader).spec_pos()) as nat, true, r));
            return r;
        },
    };
    output.clear();
    if header.compressed {
        let (inflated, reserved) = inflate_into(body, output, limits.max_decompressed_command_bytes(), "decompressed command body");
        match inflated {
            Ok(()) => {
                let r = Ok(());
                assert(cmd_body_result(old(reader).spec_rest(), *header, limits@, old(output)@, output@, (reader.spec_pos() - old(reader).spec_pos()) as nat, reserved@, r));
                r
            },
            Err(e) => {
                let r = Err(e);
                assert(cmd_body_result(old(reader).spec_rest(), *header, limits@, old(output)@, output@, (reader.spec_pos() - old(reader).spec_pos()) as nat, reserved@, r));
                r
            },
        }
    } else {
        if output.try_reserve(body.len()).is_err() {
            let r = Err(Error::Allocation { resource: "command body", requested: body.len() });
            assert(cmd_body_result(old(reader).spec_rest(), *header, limits@, old(output)@, output@, (reader.spec_pos() - old(reader).spec_pos()) as nat, false, r));
            return r;
        }
        let mut j: usize = 0;
        while j < body.len()
            invariant
                j <= body@.len(),
                output@ == body@.take(j as int),
            decreases body@.len() - j,
        {
            output.push(body[j]);
            j = j + 1;
            proof {
                assert(output@ =~= body@.take(j as int));
            }
        }
        proof {
            assert(body@.take(body@.len() as int) =~= body@);
        }
        let r = Ok(());
        assert(cmd_body_result(old(reader).spec_rest(), *header, limits@, old(output)@, output@, (reader.spec_pos() - old(reader).spec_pos()) as nat, true, r));
        r
    }
}

} // verus!
