//! Source 2 string tables: named lists of entries, each an optional string
//! and optional user data, built by create messages and changed by update
//! messages and full-packet snapshots.
//!
//! Entry strings are delta-encoded against a ring of the 32 most recent
//! strings: an entry may copy a prefix of an earlier string and append the
//! rest.

use std::collections::HashMap;

use vstd::prelude::*;

use crate::chars::{chars_of, parse_i32, parse_i32_chars, same_chars};
use crate::error::{failure_is, Error, Failure};
use crate::io::bits::{
    bits_to_bytes, byte_bits_needed, bytes_at, bytes_for_bits, cstring_from, field, fixed_read,
    low_u32, read_failure, stream_bits, ubitvar_read, varint_bits_read, CStringRead, Decoded,
};
use crate::io::BitReader;
use crate::limits::{limit_check, DecodeLimits, LimitsModel};
use crate::snappy::{inflate, inflate_outcome, inflated_as, Inflated};
use crate::text::{digits, lossy_string, push_decimal, push_signed, signed_digits, utf8_lossy};

verus! {

/// Number of recent strings that an entry can copy a prefix from.
const HISTORY_SIZE: usize = 32;

/// Bits that select an entry of the string history.
const HISTORY_BITS: usize = 5;

/// Bits of a copied prefix length; a prefix is at most 31 bytes.
const MAX_STRING_BITS: usize = 5;

/// Bytes kept of each string in the history.
const MAX_STRING_SIZE: usize = 32;

/// Capacity of the buffer that receives one entry string.
const STRING_BUFFER_SIZE: usize = 1024;

/// Bits of a variable user-data length.
const MAX_USERDATA_BITS: usize = 17;

/// Capacity of the buffer that receives one entry's user data.
const MAX_USERDATA_SIZE: usize = 131072;

/// The `instancebaseline` table stores default field values for each entity class.
pub const INSTANCE_BASELINE_TABLE_NAME: &'static str = "instancebaseline";

/// Game-agnostic input for a create-string-table message.
#[derive(Debug)]
#[non_exhaustive]
pub struct CreateStringTable {
    /// Table name.
    pub name: String,
    /// Number of entries encoded in `string_data`.
    pub num_entries: i32,
    /// Whether every entry's user data has the same size.
    pub user_data_fixed_size: bool,
    /// Bytes of fixed-size user data.
    pub user_data_size: i32,
    /// Bits of fixed-size user data.
    pub user_data_size_bits: i32,
    /// Protocol flags; bit 0 marks compressed per-entry user data.
    pub flags: i32,
    /// Encoded entries.
    pub string_data: Vec<u8>,
    /// Whether `string_data` is Snappy-compressed.
    pub data_compressed: bool,
    /// Whether variable user-data sizes are `ubitvar`s rather than 17 bits.
    pub using_varint_bitcounts: bool,
}

impl CreateStringTable {
    /// Construct a string-table create message with variable-size user data.
    pub fn new(name: &str, num_entries: i32, string_data: Vec<u8>) -> (r: Self)
        ensures
            r.name@ == name@,
            r.num_entries == num_entries,
            !r.user_data_fixed_size,
            r.user_data_size == 0,
            r.user_data_size_bits == 0,
            r.flags == 0,
            r.string_data@ == string_data@,
            !r.data_compressed,
            !r.using_varint_bitcounts,
    {
        CreateStringTable {
            name: String::from_str(name),
            num_entries,
            user_data_fixed_size: false,
            user_data_size: 0,
            user_data_size_bits: 0,
            flags: 0,
            string_data,
            data_compressed: false,
            using_varint_bitcounts: false,
        }
    }

    /// Configure fixed-width per-entry user data.
    pub fn with_fixed_user_data(self, size: i32, size_bits: i32) -> (r: Self)
        ensures
            r == (CreateStringTable {
                user_data_fixed_size: true,
                user_data_size: size,
                user_data_size_bits: size_bits,
                ..self
            }),
    {
        CreateStringTable {
            user_data_fixed_size: true,
            user_data_size: size,
            user_data_size_bits: size_bits,
            ..self
        }
    }

    /// Configure protocol flags.
    pub fn with_flags(self, flags: i32) -> (r: Self)
        ensures
            r == (CreateStringTable { flags, ..self }),
    {
        CreateStringTable { flags, ..self }
    }

    /// Mark the outer string-data payload as Snappy-compressed.
    pub fn with_compressed_data(self) -> (r: Self)
        ensures
            r == (CreateStringTable { data_compressed: true, ..self }),
    {
        CreateStringTable { data_compressed: true, ..self }
    }

    /// Use variable-length bit counts for user-data sizes.
    pub fn with_varint_bitcounts(self) -> (r: Self)
        ensures
            r == (CreateStringTable { using_varint_bitcounts: true, ..self }),
    {
        CreateStringTable { using_varint_bitcounts: true, ..self }
    }
}

/// Game-agnostic input for an update-string-table message.
#[derive(Debug)]
#[non_exhaustive]
pub struct UpdateStringTable {
    /// Index of the table in creation order.
    pub table_id: i32,
    /// Number of entries encoded in `string_data`.
    pub num_changed_entries: i32,
    /// Encoded entries.
    pub string_data: Vec<u8>,
}

impl UpdateStringTable {
    /// Construct an incremental string-table update.
    pub fn new(table_id: i32, num_changed_entries: i32, string_data: Vec<u8>) -> (r: Self)
        ensures
            r == (UpdateStringTable { table_id, num_changed_entries, string_data }),
    {
        UpdateStringTable { table_id, num_changed_entries, string_data }
    }
}

/// A single entry in a string table.
#[derive(Debug, Clone)]
#[non_exhaustive]
pub struct StringTableEntry {
    /// The entry's string, if it has one.
    pub string: Option<String>,
    /// The entry's user data, if it has any.
    pub user_data: Option<Vec<u8>>,
}

/// An entry as values: its string as characters and its user data as bytes.
pub struct EntryModel {
    pub string: Option<Seq<char>>,
    pub user_data: Option<Seq<u8>>,
}

/// The characters of an optional string.
pub open spec fn opt_chars(s: Option<String>) -> Option<Seq<char>> {
    match s {
        Some(v) => Some(v@),
        None => None,
    }
}

/// The bytes of an optional byte vector.
pub open spec fn opt_bytes(s: Option<Vec<u8>>) -> Option<Seq<u8>> {
    match s {
        Some(v) => Some(v@),
        None => None,
    }
}

impl View for StringTableEntry {
    type V = EntryModel;

    open spec fn view(&self) -> EntryModel {
        EntryModel { string: opt_chars(self.string), user_data: opt_bytes(self.user_data) }
    }
}

impl StringTableEntry {
    /// Construct one full-packet string-table entry.
    pub fn new(string: Option<String>, user_data: Option<Vec<u8>>) -> (r: Self)
        ensures
            r@ == (EntryModel { string: opt_chars(string), user_data: opt_bytes(user_data) }),
    {
        StringTableEntry { string, user_data }
    }
}

/// The views of a list of entries.
pub open spec fn entries_view(entries: Seq<StringTableEntry>) -> Seq<EntryModel> {
    entries.map_values(|e: StringTableEntry| e@)
}

/// A string table.
#[derive(Debug, Clone)]
pub struct StringTable {
    name: String,
    user_data_fixed_size: bool,
    user_data_size: i32,
    user_data_size_bits: i32,
    flags: i32,
    using_varint_bitcounts: bool,
    entries: Vec<StringTableEntry>,
    dirty: Vec<usize>,
}

/// How a table reads the user data of its entries.
pub struct TableConfig {
    pub fixed: bool,
    pub size: i32,
    pub size_bits: i32,
    pub flags: i32,
    pub varint_bitcounts: bool,
}

/// A table as values: its name, its user-data settings, its entries and
/// the indices written since dirty marks were last cleared.
pub struct TableModel {
    pub name: Seq<char>,
    pub config: TableConfig,
    pub entries: Seq<EntryModel>,
    pub dirty: Seq<usize>,
}

impl View for StringTable {
    type V = TableModel;

    closed spec fn view(&self) -> TableModel {
        TableModel {
            name: self.name@,
            config: TableConfig {
                fixed: self.user_data_fixed_size,
                size: self.user_data_size,
                size_bits: self.user_data_size_bits,
                flags: self.flags,
                varint_bitcounts: self.using_varint_bitcounts,
            },
            entries: entries_view(self.entries@),
            dirty: self.dirty@,
        }
    }
}

/// The failure of a limit check.
pub open spec fn limit_failure(resource: &'static str, actual: usize, limit: usize) -> Failure {
    Failure::Exact(Error::LimitExceeded { resource, limit, actual })
}

/// How one part of an entry's decoding ends.
pub enum Step<T> {
    /// It produced `value`, leaving the reader at `pos`.
    Done { value: T, pos: nat },
    /// It failed, leaving the reader at `pos`.
    Fail { failure: Failure, pos: nat },
}

/// The index of the next entry: one past the previous, or read explicitly.
pub open spec fn index_step(bits: Seq<bool>, pos: nat, prev: int) -> Step<int> {
    match fixed_read(bits, pos as int, 1) {
        Decoded::Value { value, len: _ } => if value == 1 {
            Step::Done { value: prev + 1, pos: pos + 1 }
        } else {
            match varint_bits_read(bits, (pos + 1) as int, 5) {
                Decoded::Value { value: v, len } => Step::Done {
                    value: low_u32(v) + 1,
                    pos: pos + 1 + len,
                },
                d => Step::Fail { failure: read_failure(d), pos: pos + 1 },
            }
        },
        d => Step::Fail { failure: read_failure(d), pos },
    }
}

/// The history slot that the next string is stored in.
pub open spec fn history_slot(hdi: nat) -> nat {
    hdi % 32
}

/// The first history slot that history references count from.
pub open spec fn history_base(hdi: nat) -> nat {
    if hdi > 32 {
        hdi % 32
    } else {
        0
    }
}

/// Storing the `hdi`-th string writes its first 32 bytes, zero padded,
/// into ring slot `hdi mod 32` of the 32-byte slots, and leaves every
/// other byte of the history as it was.
pub proof fn lemma_store_history_slot(history: Seq<u8>, hdi: nat, string: Seq<u8>, j: int)
    requires
        history.len() == 1024,
        0 <= j < 1024,
    ensures
        store_history(history, hdi, string).len() == 1024,
        ({
            let start = 32 * (hdi % 32) as int;
            store_history(history, hdi, string)[j] == if start <= j < start + 32 {
                if j - start < string.len() {
                    string[j - start]
                } else {
                    0u8
                }
            } else {
                history[j]
            }
        }),
{
    let slot = hdi % 32;
    assert(32 * slot + 32 <= 1024) by (nonlinear_arith)
        requires
            slot < 32,
    ;
}

/// The index of the next entry, stated against its first bit: a set bit
/// moves to the entry after the previous one; a clear bit is followed by
/// a varint that holds the new index minus one.
pub proof fn lemma_entry_index(bits: Seq<bool>, pos: nat, prev: int)
    requires
        pos < bits.len(),
    ensures
        bits[pos as int] ==> index_step(bits, pos, prev) == (Step::Done { value: prev + 1, pos: pos + 1 }),
        !bits[pos as int] ==> match varint_bits_read(bits, (pos + 1) as int, 5) {
            Decoded::Value { value: v, len } => index_step(bits, pos, prev) == (Step::Done {
                value: (v % 0x1_0000_0000) as int + 1,
                pos: pos + 1 + len,
            }),
            _ => index_step(bits, pos, prev) is Fail,
        },
{
    vstd::arithmetic::power2::lemma2_to64();
    reveal_with_fuel(crate::io::bits::bits_value, 2);
    assert(bits.subrange(pos as int, pos + 1int).drop_last() =~= Seq::<bool>::empty());
}

/// A history reference counts through the ring of the last 32 stored
/// strings: an entry string that is present and refers to history, with a
/// 5-bit reference `r` and a 5-bit copy length `c`, starts with the first
/// `c` bytes of history slot `(hdi + r) mod 32` once 32 or more strings
/// have been stored, and of slot `r` before that.
pub proof fn lemma_history_reference(bits: Seq<bool>, pos: nat, history: Seq<u8>, hdi: nat)
    requires
        pos + 12 <= bits.len(),
        history.len() == 1024,
        bits[pos as int],
        bits[pos + 1int],
    ensures
        string_step(bits, pos, history, hdi) matches Step::Done { value: Some(v), pos: _ } ==> {
            let r = field(bits, pos + 2int, 5);
            let c = field(bits, pos + 7int, 5);
            let slot = if hdi >= 32 {
                (hdi + r) % 32
            } else {
                r
            };
            &&& c <= v.len()
            &&& v.take(c as int) == history.subrange(32 * slot as int, (32 * slot + c) as int)
        },
{
    vstd::arithmetic::power2::lemma2_to64();
    reveal_with_fuel(crate::io::bits::bits_value, 2);
    assert(bits.subrange(pos as int, pos + 1int).drop_last() =~= Seq::<bool>::empty());
    assert(bits.subrange(pos + 1int, pos + 2int).drop_last() =~= Seq::<bool>::empty());
    crate::io::bits::lemma_bits_value_bound(bits.subrange(pos + 2int, pos + 7int));
    crate::io::bits::lemma_bits_value_bound(bits.subrange(pos + 7int, pos + 12int));
    let r = field(bits, pos + 2int, 5);
    let c = field(bits, pos + 7int, 5);
    assert((hdi % 32 + r) % 32 == (hdi + r) % 32) by (nonlinear_arith);
    let slot = (history_base(hdi) + r) % 32;
    assert(32 * slot + c <= 1024) by (nonlinear_arith)
        requires
            slot < 32,
            c < 32,
    ;
    let prefix = history.subrange(32 * slot as int, 32 * slot + c as int);
    if let Step::Done { value, pos: _ } = cstring_step(bits, pos + 12, prefix, (1024 - c) as nat) {
        let bytes = bytes_at(bits, (pos + 12) as int);
        if let CStringRead::Done { len } = cstring_from(bytes, 0, (1024 - c) as nat) {
            assert(value.take(c as int) =~= prefix);
        }
    }
}

/// The history after storing `string`: its first 32 bytes, zero padded,
/// replace the slot of `hdi`.
pub open spec fn store_history(history: Seq<u8>, hdi: nat, string: Seq<u8>) -> Seq<u8> {
    let slot = history_slot(hdi);
    let kept = if string.len() < 32 {
        string
    } else {
        string.take(32)
    };
    history.take((32 * slot) as int) + kept + Seq::new((32 - kept.len()) as nat, |i: int| 0u8) + history.skip(
        (32 * slot + 32) as int,
    )
}

/// A string read from `pos` after `prefix`, into a buffer of `cap` bytes.
pub open spec fn cstring_step(bits: Seq<bool>, pos: nat, prefix: Seq<u8>, cap: nat) -> Step<Seq<u8>> {
    let bytes = bytes_at(bits, pos as int);
    match cstring_from(bytes, 0, cap) {
        CStringRead::Done { len } => Step::Done {
            value: prefix + bytes.take(len as int),
            pos: pos + 8 * (len + 1),
        },
        CStringRead::Truncated { at } => Step::Fail {
            failure: Failure::Exact(
                Error::Overflow { needed: 8, available: (bits.len() - pos - 8 * at) as usize },
            ),
            pos,
        },
        CStringRead::TooLong => Step::Fail { failure: Failure::AnyParse, pos },
    }
}

/// The optional string of an entry, as raw bytes, given the history.
pub open spec fn string_step(bits: Seq<bool>, pos: nat, history: Seq<u8>, hdi: nat) -> Step<
    Option<Seq<u8>>,
> {
    match fixed_read(bits, pos as int, 1) {
        Decoded::Value { value: has, len: _ } => if has == 0 {
            Step::Done { value: None, pos: pos + 1 }
        } else {
            match fixed_read(bits, (pos + 1) as int, 1) {
                Decoded::Value { value: uses_history, len: _ } => if uses_history == 1 {
                    match fixed_read(bits, (pos + 2) as int, 5) {
                        Decoded::Value { value: raw, len: _ } => {
                            let slot = (history_base(hdi) + raw) % 32;
                            match fixed_read(bits, (pos + 7) as int, 5) {
                                Decoded::Value { value: copied, len: _ } => {
                                    let prefix = history.subrange(
                                        32 * slot as int,
                                        32 * slot + copied as int,
                                    );
                                    match cstring_step(bits, pos + 12, prefix, (1024 - copied) as nat) {
                                        Step::Done { value, pos } => Step::Done {
                                            value: Some(value),
                                            pos,
                                        },
                                        Step::Fail { failure, pos } => Step::Fail { failure, pos },
                                    }
                                },
                                d => Step::Fail { failure: read_failure(d), pos: pos + 7 },
                            }
                        },
                        d => Step::Fail { failure: read_failure(d), pos: pos + 2 },
                    }
                } else {
                    match cstring_step(bits, pos + 2, Seq::empty(), 1024) {
                        Step::Done { value, pos } => Step::Done { value: Some(value), pos },
                        Step::Fail { failure, pos } => Step::Fail { failure, pos },
                    }
                },
                d => Step::Fail { failure: read_failure(d), pos: pos + 1 },
            }
        },
        d => Step::Fail { failure: read_failure(d), pos },
    }
}

/// A size field as a `usize`; negative sizes count as the largest `usize`.
pub open spec fn size_of_field(v: i32) -> usize {
    if v < 0 {
        usize::MAX
    } else {
        v as usize
    }
}

/// Bytes that hold `bits` bits, rounding up.
pub open spec fn ceil_bytes(bits: usize) -> usize {
    (bits / 8 + if bits % 8 == 0 {
        0usize
    } else {
        1usize
    }) as usize
}

/// The user data of an entry and the user-data buffer afterwards.
pub struct UserData {
    pub data: Option<Seq<u8>>,
    pub buffer: Seq<u8>,
}

/// Message of a fixed user-data size that exceeds the buffer.
pub open spec fn fixed_too_large_message(size: usize, size_bits: usize) -> Seq<char> {
    "string-table fixed user data ("@ + digits(size as nat) + " bytes / "@ + digits(size_bits as nat)
        + " bits) exceeds 131072 bytes"@
}

/// Message of a variable user-data size that exceeds the buffer.
pub open spec fn variable_too_large_message(size: usize) -> Seq<char> {
    "string-table user data size "@ + digits(size as nat) + " exceeds 131072 bytes"@
}

/// Fixed-size user data.
pub open spec fn fixed_user_data_step(
    cfg: TableConfig,
    lim: LimitsModel,
    bits: Seq<bool>,
    pos: nat,
    buffer: Seq<u8>,
) -> Step<UserData> {
    let size = size_of_field(cfg.size);
    let size_bits = size_of_field(cfg.size_bits);
    let max = lim.max_string_table_user_data_bytes;
    if size > max {
        Step::Fail { failure: limit_failure("string-table fixed user data", size, max), pos }
    } else if ceil_bytes(size_bits) > max {
        Step::Fail {
            failure: limit_failure("string-table fixed user data bits", ceil_bytes(size_bits), max),
            pos,
        }
    } else if size > 131072 || ceil_bytes(size_bits) > 131072 {
        Step::Fail { failure: Failure::Parse(fixed_too_large_message(size, size_bits)), pos }
    } else if pos + size_bits > bits.len() {
        Step::Fail {
            failure: Failure::Exact(
                Error::Overflow { needed: size_bits, available: (bits.len() - pos) as usize },
            ),
            pos,
        }
    } else {
        let filled = bits_to_bytes(bits, pos as int, size_bits as nat) + buffer.skip(
            bytes_for_bits(size_bits as nat) as int,
        );
        Step::Done {
            value: UserData { data: Some(filled.take(size as int)), buffer: filled },
            pos: (pos + size_bits) as nat,
        }
    }
}

/// Decompressed variable user data.
pub open spec fn inflate_step(lim: LimitsModel, stored: Seq<u8>, alloc_ok: bool) -> Result<Seq<u8>, Failure> {
    match inflate_outcome(stored, lim.max_string_table_user_data_bytes, alloc_ok) {
        Inflated::Bytes(d) => Ok(d),
        Inflated::OverLimit { actual } => Err(
            limit_failure(
                "decompressed string-table user data",
                actual,
                lim.max_string_table_user_data_bytes,
            ),
        ),
        Inflated::NoMemory { requested } => Err(
            Failure::Exact(
                Error::Allocation { resource: "decompressed string-table user data", requested },
            ),
        ),
        Inflated::Corrupt => Err(Failure::AnyDecompress),
    }
}

/// Variable-size user data after its optional compression flag: its size,
/// then its bytes, decompressed when flagged.
pub open spec fn sized_user_data_step(
    cfg: TableConfig,
    lim: LimitsModel,
    bits: Seq<bool>,
    pos: nat,
    buffer: Seq<u8>,
    compressed: bool,
    alloc_ok: bool,
) -> Step<UserData> {
    let read = if cfg.varint_bitcounts {
        ubitvar_read(bits, pos as int)
    } else {
        fixed_read(bits, pos as int, 17)
    };
    match read {
        Decoded::Value { value, len } => {
            let size = value as usize;
            let at = pos + len;
            let max = lim.max_string_table_user_data_bytes;
            if size > max {
                Step::Fail { failure: limit_failure("string-table user data", size, max), pos: at }
            } else if size > 131072 {
                Step::Fail { failure: Failure::Parse(variable_too_large_message(size)), pos: at }
            } else if 8 * size > bits.len() - at {
                Step::Fail {
                    failure: Failure::Exact(
                        Error::Overflow {
                            needed: byte_bits_needed(size as nat) as usize,
                            available: (bits.len() - at) as usize,
                        },
                    ),
                    pos: at,
                }
            } else {
                let stored = bytes_at(bits, at as int).take(size as int);
                let filled = stored + buffer.skip(size as int);
                let end = (at + 8 * size) as nat;
                if compressed {
                    match inflate_step(lim, stored, alloc_ok) {
                        Ok(d) => Step::Done {
                            value: UserData { data: Some(d), buffer: filled },
                            pos: end,
                        },
                        Err(failure) => Step::Fail { failure, pos: end },
                    }
                } else {
                    Step::Done { value: UserData { data: Some(stored), buffer: filled }, pos: end }
                }
            }
        },
        d => Step::Fail { failure: read_failure(d), pos },
    }
}

/// The optional user data of an entry.
pub open spec fn user_data_step(
    cfg: TableConfig,
    lim: LimitsModel,
    bits: Seq<bool>,
    pos: nat,
    buffer: Seq<u8>,
    alloc_ok: bool,
) -> Step<UserData> {
    match fixed_read(bits, pos as int, 1) {
        Decoded::Value { value: has, len: _ } => if has == 0 {
            Step::Done { value: UserData { data: None, buffer }, pos: pos + 1 }
        } else if cfg.fixed {
            fixed_user_data_step(cfg, lim, bits, pos + 1, buffer)
        } else if (cfg.flags & 1) != 0 {
            match fixed_read(bits, (pos + 1) as int, 1) {
                Decoded::Value { value: flag, len: _ } => sized_user_data_step(
                    cfg,
                    lim,
                    bits,
                    pos + 2,
                    buffer,
                    flag == 1,
                    alloc_ok,
                ),
                d => Step::Fail { failure: read_failure(d), pos: pos + 1 },
            }
        } else {
            sized_user_data_step(cfg, lim, bits, pos + 1, buffer, false, alloc_ok)
        },
        d => Step::Fail { failure: read_failure(d), pos },
    }
}

/// The state carried from one entry to the next while decoding.
pub struct ReadState {
    /// Reader position.
    pub pos: nat,
    /// Index of the previous entry; -1 before the first.
    pub index: int,
    /// The 32 history slots of 32 bytes each, one after another.
    pub history: Seq<u8>,
    /// Number of strings stored in the history so far.
    pub hdi: nat,
    /// The user-data buffer, whose bytes persist from entry to entry.
    pub user_buf: Seq<u8>,
}

/// One decoded entry.
pub struct EntryRead {
    pub idx: nat,
    pub string: Option<Seq<u8>>,
    pub user_data: Option<Seq<u8>>,
}

/// Message of an entry index that does not fit a `usize`.
pub open spec fn index_message(index: int) -> Seq<char> {
    "negative string-table entry index "@ + signed_digits(index)
}

/// Decoding of one entry: index, string and user data.
#[verifier::opaque]
pub open spec fn entry_step(cfg: TableConfig, lim: LimitsModel, bits: Seq<bool>, st: ReadState, alloc_ok: bool) -> (
    Step<EntryRead>,
    ReadState,
) {
    match index_step(bits, st.pos, st.index) {
        Step::Done { value: index, pos: p1 } => {
            if index > usize::MAX {
                (Step::Fail { failure: Failure::Parse(index_message(index)), pos: p1 }, st)
            } else {
                let idx = index as usize;
                let counted = if idx == usize::MAX {
                    usize::MAX
                } else {
                    (idx + 1) as usize
                };
                if counted > lim.max_string_table_entries {
                    (
                        Step::Fail {
                            failure: limit_failure(
                                "string table entry index",
                                counted,
                                lim.max_string_table_entries,
                            ),
                            pos: p1,
                        },
                        st,
                    )
                } else {
                    match string_step(bits, p1, st.history, st.hdi) {
                        Step::Done { value: string, pos: p2 } => {
                            let history = match string {
                                Some(s) => store_history(st.history, st.hdi, s),
                                None => st.history,
                            };
                            let hdi = match string {
                                Some(_) => st.hdi + 1,
                                None => st.hdi,
                            };
                            match user_data_step(cfg, lim, bits, p2, st.user_buf, alloc_ok) {
                                Step::Done { value: ud, pos: p3 } => (
                                    Step::Done {
                                        value: EntryRead { idx: idx as nat, string, user_data: ud.data },
                                        pos: p3,
                                    },
                                    ReadState {
                                        pos: p3,
                                        index,
                                        history,
                                        hdi,
                                        user_buf: ud.buffer,
                                    },
                                ),
                                Step::Fail { failure, pos } => (Step::Fail { failure, pos }, st),
                            }
                        },
                        Step::Fail { failure, pos } => (Step::Fail { failure, pos }, st),
                    }
                }
            }
        },
        Step::Fail { failure, pos } => (Step::Fail { failure, pos }, st),
    }
}

/// Entries after writing a decoded entry at `idx`: an existing entry keeps
/// the parts that the update leaves out; a new index first fills the gap
/// with empty entries.
pub open spec fn apply_entry(
    entries: Seq<EntryModel>,
    idx: nat,
    string: Option<Seq<char>>,
    user_data: Option<Seq<u8>>,
) -> Seq<EntryModel> {
    if idx < entries.len() {
        let old = entries[idx as int];
        entries.update(
            idx as int,
            EntryModel {
                string: if string is Some {
                    string
                } else {
                    old.string
                },
                user_data: if user_data is Some {
                    user_data
                } else {
                    old.user_data
                },
            },
        )
    } else {
        entries + Seq::new(
            (idx - entries.len()) as nat,
            |i: int| EntryModel { string: None, user_data: None },
        ) + seq![EntryModel { string, user_data }]
    }
}

/// The characters of a decoded entry string.
pub open spec fn entry_string(s: Option<Seq<u8>>) -> Option<Seq<char>> {
    match s {
        Some(b) => Some(utf8_lossy(b)),
        None => None,
    }
}

/// Where decoding stands after some entries.
pub struct UpdateProgress {
    pub state: ReadState,
    pub entries: Seq<EntryModel>,
    pub dirty: Seq<usize>,
    pub failure: Option<(Failure, nat)>,
}

/// Progress after attempting one entry per element of `allocs`, each
/// element telling whether that entry's allocation (if any) succeeded.
/// After a failure nothing changes.
pub open spec fn run_entries(
    cfg: TableConfig,
    lim: LimitsModel,
    bits: Seq<bool>,
    start: UpdateProgress,
    allocs: Seq<bool>,
) -> UpdateProgress
    decreases allocs.len(),
{
    if allocs.len() == 0 {
        start
    } else {
        let prev = run_entries(cfg, lim, bits, start, allocs.drop_last());
        if prev.failure is Some {
            prev
        } else {
            match entry_step(cfg, lim, bits, prev.state, allocs.last()) {
                (Step::Done { value: e, pos: _ }, next) => UpdateProgress {
                    state: next,
                    entries: apply_entry(prev.entries, e.idx, entry_string(e.string), e.user_data),
                    dirty: prev.dirty.push(e.idx as usize),
                    failure: None,
                },
                (Step::Fail { failure, pos }, _) => UpdateProgress {
                    failure: Some((failure, pos)),
                    ..prev
                },
            }
        }
    }
}

/// The state before the first entry of an update.
pub open spec fn initial_read_state(pos: nat) -> ReadState {
    ReadState {
        pos,
        index: -1,
        history: Seq::new(1024, |i: int| 0u8),
        hdi: 0,
        user_buf: Seq::new(131072, |i: int| 0u8),
    }
}

/// Buffers that carry over from one entry of an update to the next.
struct Scratch {
    index: i64,
    history: Vec<u8>,
    hdi: usize,
    user_buf: Vec<u8>,
}

impl Scratch {
    /// Sizes are fixed and counters stay within what `done` entries allow.
    spec fn wf(&self, done: nat) -> bool {
        &&& self.history@.len() == 1024
        &&& self.user_buf@.len() == 131072
        &&& -1 <= self.index <= 0x1_0000_0000 + done
        &&& self.hdi <= done
    }

    /// The decoding state, with the reader at `pos`.
    spec fn state(&self, pos: nat) -> ReadState {
        ReadState {
            pos,
            index: self.index as int,
            history: self.history@,
            hdi: self.hdi as nat,
            user_buf: self.user_buf@,
        }
    }

    fn new() -> (r: Self)
        ensures
            r.wf(0),
            r.state(0) == initial_read_state(0),
    {
        let r = Scratch {
            index: -1,
            history: vec![0u8; STRING_BUFFER_SIZE],
            hdi: 0,
            user_buf: vec![0u8; MAX_USERDATA_SIZE],
        };
        assert(r.history@ =~= Seq::new(1024, |i: int| 0u8));
        assert(r.user_buf@ =~= Seq::new(131072, |i: int| 0u8));
        r
    }
}

/// Message of a negative entry count.
pub open spec fn negative_count_message(n: i32) -> Seq<char> {
    "negative string-table entry count "@ + signed_digits(n as int)
}


/// The progress before the first entry of an update of `table`.
pub open spec fn start_progress(table: TableModel, pos: nat) -> UpdateProgress {
    UpdateProgress {
        state: initial_read_state(pos),
        entries: table.entries,
        dirty: table.dirty,
        failure: None,
    }
}

/// Attempting more entries after a failure changes nothing.
pub proof fn lemma_failure_persists(
    cfg: TableConfig,
    lim: LimitsModel,
    bits: Seq<bool>,
    start: UpdateProgress,
    allocs: Seq<bool>,
    n: nat,
)
    requires
        run_entries(cfg, lim, bits, start, allocs).failure is Some,
    ensures
        run_entries(cfg, lim, bits, start, allocs + Seq::new(n, |i: int| false)) == run_entries(
            cfg,
            lim,
            bits,
            start,
            allocs,
        ),
    decreases n,
{
    if n == 0 {
        assert(allocs + Seq::new(0, |i: int| false) =~= allocs);
    } else {
        let longer = allocs + Seq::new(n, |i: int| false);
        assert(longer.drop_last() =~= allocs + Seq::new((n - 1) as nat, |i: int| false));
        lemma_failure_persists(cfg, lim, bits, start, allocs, (n - 1) as nat);
    }
}

/// Read the index of the next entry.
fn read_index(br: &mut BitReader, prev: i64) -> (r: Result<i64, Error>)
    requires
        old(br).wf(),
        -1 <= prev <= 0x1_0000_0000_0000,
    ensures
        final(br).wf(),
        final(br).spec_data() == old(br).spec_data(),
        match index_step(old(br).spec_bits(), old(br).spec_pos(), prev as int) {
            Step::Done { value, pos } => r == Ok::<i64, Error>(value as i64) && final(br).spec_pos()
                == pos,
            Step::Fail { failure, pos } => (r matches Err(e) && failure_is(e, failure))
                && final(br).spec_pos() == pos,
        },
        r matches Ok(v) ==> 0 <= v <= prev + 1 || 0 <= v <= 0x1_0000_0000,
{
    proof {
        vstd::arithmetic::power2::lemma2_to64();
    }
    let next = match br.read_bool() {
        Ok(b) => b,
        Err(e) => {
            return Err(e);
        },
    };
    if next {
        return Ok(prev + 1);
    }
    match br.read_uvarint32() {
        Ok(v) => Ok(v as i64 + 1),
        Err(e) => Err(e),
    }
}

/// Copy `history[start..start + count]` into a new vector.
fn copy_out(history: &Vec<u8>, start: usize, count: usize) -> (r: Vec<u8>)
    requires
        start + count <= history@.len(),
    ensures
        r@ == history@.subrange(start as int, start + count),
{
    let mut out: Vec<u8> = Vec::new();
    let mut j: usize = 0;
    while j < count
        invariant
            start + count <= history@.len(),
            start + count <= history.len(),
            j <= count,
            out@ == history@.subrange(start as int, start + j),
        decreases count - j,
    {
        assert(start + j < history@.len());
        out.push(history[start + j]);
        j = j + 1;
        proof {
            assert(out@ =~= history@.subrange(start as int, start + j));
        }
    }
    out
}

/// Append `src[..count]` to `out`.
fn append_prefix(out: &mut Vec<u8>, src: &[u8], count: usize)
    requires
        count <= src@.len(),
    ensures
        final(out)@ == old(out)@ + src@.take(count as int),
{
    let mut j: usize = 0;
    while j < count
        invariant
            count <= src@.len(),
            j <= count,
            out@ == old(out)@ + src@.take(j as int),
        decreases count - j,
    {
        out.push(src[j]);
        j = j + 1;
        proof {
            assert(out@ =~= old(out)@ + src@.take(j as int));
        }
    }
}

/// A read bit is 0 or 1.
proof fn lemma_one_bit(bits: Seq<bool>, pos: nat)
    ensures
        fixed_read(bits, pos as int, 1) matches Decoded::Value { value, len: _ } ==> value <= 1,
{
    if pos + 1 <= bits.len() {
        crate::io::bits::lemma_bits_value_bound(bits.subrange(pos as int, pos + 1 as int));
        vstd::arithmetic::power2::lemma2_to64();
    }
}

/// A string found from byte `j` on ends inside the bytes and the buffer.
proof fn lemma_cstring_bounds(bytes: Seq<u8>, j: nat, cap: nat)
    ensures
        cstring_from(bytes, j, cap) matches CStringRead::Done { len } ==> j <= len < bytes.len()
            && len <= cap || j > cap,
    decreases cap - j,
{
    if j < bytes.len() && bytes[j as int] != 0 && j < cap {
        lemma_cstring_bounds(bytes, j + 1, cap);
    }
}

/// Read a null-terminated string after `prefix` into a buffer of `cap` bytes.
fn read_cstring(br: &mut BitReader, prefix: Vec<u8>, cap: usize) -> (r: Result<Vec<u8>, Error>)
    requires
        old(br).wf(),
    ensures
        final(br).wf(),
        final(br).spec_data() == old(br).spec_data(),
        match cstring_step(old(br).spec_bits(), old(br).spec_pos(), prefix@, cap as nat) {
            Step::Done { value, pos } => (r matches Ok(v) && v@ == value) && final(br).spec_pos()
                == pos,
            Step::Fail { failure, pos } => (r matches Err(e) && failure_is(e, failure))
                && final(br).spec_pos() == pos,
        },
{
    let mut buf: Vec<u8> = vec![0u8; cap];
    let ghost bytes = bytes_at(old(br).spec_bits(), old(br).spec_pos() as int);
    proof {
        lemma_cstring_bounds(bytes, 0, cap as nat);
    }
    let n = match br.read_string_into(buf.as_mut_slice()) {
        Ok(n) => n,
        Err(e) => {
            return Err(e);
        },
    };
    let mut out = prefix;
    proof {
        assert(buf@.take(n as int) =~= bytes.take(n as int));
    }
    append_prefix(&mut out, buf.as_slice(), n);
    Ok(out)
}

/// Read the optional string of an entry.
fn read_entry_string(br: &mut BitReader, history: &Vec<u8>, hdi: usize) -> (r: Result<
    Option<Vec<u8>>,
    Error,
>)
    requires
        old(br).wf(),
        history@.len() == 1024,
    ensures
        final(br).wf(),
        final(br).spec_data() == old(br).spec_data(),
        match string_step(old(br).spec_bits(), old(br).spec_pos(), history@, hdi as nat) {
            Step::Done { value, pos } => (r matches Ok(v) && opt_bytes(v) == value)
                && final(br).spec_pos() == pos,
            Step::Fail { failure, pos } => (r matches Err(e) && failure_is(e, failure))
                && final(br).spec_pos() == pos,
        },
{
    let ghost bits = old(br).spec_bits();
    let ghost pos = old(br).spec_pos();
    proof {
        vstd::arithmetic::power2::lemma2_to64();
    }
    proof {
        lemma_one_bit(bits, pos);
    }
    let present = match br.read_bool() {
        Ok(b) => b,
        Err(e) => {
            return Err(e);
        },
    };
    if !present {
        return Ok(None);
    }
    let uses_history = match br.read_bool() {
        Ok(b) => b,
        Err(e) => {
            return Err(e);
        },
    };
    if !uses_history {
        return match read_cstring(br, Vec::new(), STRING_BUFFER_SIZE) {
            Ok(v) => Ok(Some(v)),
            Err(e) => Err(e),
        };
    }
    let base: usize = if hdi > HISTORY_SIZE {
        hdi % HISTORY_SIZE
    } else {
        0
    };
    let raw = match br.read_bits(HISTORY_BITS) {
        Ok(v) => v,
        Err(e) => {
            return Err(e);
        },
    };
    proof {
        crate::io::bits::lemma_bits_value_bound(bits.subrange(pos + 2 as int, pos + 7 as int));
    }
    let slot = (base + raw as usize) % HISTORY_SIZE;
    let copied = match br.read_bits(MAX_STRING_BITS) {
        Ok(v) => v as usize,
        Err(e) => {
            return Err(e);
        },
    };
    proof {
        crate::io::bits::lemma_bits_value_bound(bits.subrange(pos + 7 as int, pos + 12 as int));
    }
    let prefix = copy_out(history, MAX_STRING_SIZE * slot, copied);
    match read_cstring(br, prefix, STRING_BUFFER_SIZE - copied) {
        Ok(v) => Ok(Some(v)),
        Err(e) => Err(e),
    }
}

/// Store a string in its history slot.
fn store_string(history: &mut Vec<u8>, hdi: usize, string: &[u8])
    requires
        old(history)@.len() == 1024,
    ensures
        final(history)@ == store_history(old(history)@, hdi as nat, string@),
        final(history)@.len() == 1024,
{
    let slot = hdi % HISTORY_SIZE;
    let kept: usize = if string.len() < MAX_STRING_SIZE {
        string.len()
    } else {
        MAX_STRING_SIZE
    };
    let ghost kept_bytes = if string@.len() < 32 {
        string@
    } else {
        string@.take(32)
    };
    let ghost target = kept_bytes + Seq::new((32 - kept_bytes.len()) as nat, |i: int| 0u8);
    let ghost start = 32 * slot;
    assert(start <= 992) by (nonlinear_arith)
        requires
            start == 32 * slot,
            slot < 32,
    ;
    let mut j: usize = 0;
    while j < MAX_STRING_SIZE
        invariant
            j <= 32,
            slot < 32,
            start == 32 * slot,
            start <= 992,
            old(history)@.len() == 1024,
            kept == kept_bytes.len(),
            kept <= string@.len(),
            kept_bytes == string@.take(kept as int),
            target.len() == 32,
            target == kept_bytes + Seq::new((32 - kept_bytes.len()) as nat, |i: int| 0u8),
            history@.len() == 1024,
            history@ == old(history)@.take(start as int) + target.take(j as int) + old(history)@.skip(
                start + j,
            ),
        decreases 32 - j,
    {
        let b: u8 = if j < kept {
            string[j]
        } else {
            0
        };
        assert(b == target[j as int]);
        history.set(MAX_STRING_SIZE * slot + j, b);
        j = j + 1;
        proof {
            assert(history@ =~= old(history)@.take(start as int) + target.take(j as int) + old(
                history,
            )@.skip(start + j));
        }
    }
    proof {
        assert(target.take(32) =~= target);
    }
}

/// `limit_check` as a step failure.
fn check(limits: &DecodeLimits, resource: &'static str, actual: usize, limit: usize) -> (r: Result<(), Error>)
    ensures
        actual > limit ==> r == Err::<(), Error>(Error::LimitExceeded { resource, limit, actual }),
        actual <= limit ==> r is Ok,
{
    limits.ensure(resource, actual, limit)
}

impl StringTable {
    fn config_view(&self) -> (r: Ghost<TableConfig>)
        ensures
            r@ == self@.config,
    {
        Ghost(self@.config)
    }

    /// The spec view of this table's user-data settings.
    pub closed spec fn spec_config(&self) -> TableConfig {
        self@.config
    }

    fn read_fixed_user_data(&self, br: &mut BitReader, limits: &DecodeLimits, buffer: &mut Vec<u8>) -> (r: Result<Option<Vec<u8>>, Error>)
        requires
            old(br).wf(),
            old(buffer)@.len() == 131072,
        ensures
            final(br).wf(),
            final(br).spec_data() == old(br).spec_data(),
            match fixed_user_data_step(self@.config, limits@, old(br).spec_bits(), old(br).spec_pos(), old(buffer)@) {
                Step::Done { value: ud, pos } => (r matches Ok(v) && opt_bytes(v) == ud.data)
                    && final(buffer)@ == ud.buffer && final(br).spec_pos() == pos,
                Step::Fail { failure, pos } => (r matches Err(e) && failure_is(e, failure))
                    && final(br).spec_pos() == pos,
            },
            final(buffer)@.len() == 131072,
    {
        let size: usize = if self.user_data_size < 0 {
            usize::MAX
        } else {
            self.user_data_size as usize
        };
        let size_bits: usize = if self.user_data_size_bits < 0 {
            usize::MAX
        } else {
            self.user_data_size_bits as usize
        };
        let max = limits.max_string_table_user_data_bytes();
        if let Err(e) = check(limits, "string-table fixed user data", size, max) {
            return Err(e);
        }
        let whole: usize = size_bits / 8 + if size_bits % 8 == 0 {
            0
        } else {
            1
        };
        if let Err(e) = check(limits, "string-table fixed user data bits", whole, max) {
            return Err(e);
        }
        if size > MAX_USERDATA_SIZE || whole > MAX_USERDATA_SIZE {
            let mut context = String::from_str("string-table fixed user data (");
            push_decimal(&mut context, size as u64);
            context.append(" bytes / ");
            push_decimal(&mut context, size_bits as u64);
            context.append(" bits) exceeds 131072 bytes");
            return Err(Error::Parse { context });
        }
        let read = br.read_bits_to_bytes(buffer.as_mut_slice(), size_bits);
        match read {
            Ok(()) => {
                let data = vstd::slice::slice_to_vec(vstd::slice::slice_subrange(buffer.as_slice(), 0, size));
                Ok(Some(data))
            },
            Err(e) => Err(e),
        }
    }

    fn read_sized_user_data(
        &self,
        br: &mut BitReader,
        limits: &DecodeLimits,
        buffer: &mut Vec<u8>,
        compressed: bool,
    ) -> (r: (Result<Option<Vec<u8>>, Error>, Ghost<bool>))
        requires
            old(br).wf(),
            old(buffer)@.len() == 131072,
        ensures
            final(br).wf(),
            final(br).spec_data() == old(br).spec_data(),
            match sized_user_data_step(self@.config, limits@, old(br).spec_bits(), old(br).spec_pos(), old(buffer)@, compressed, r.1@) {
                Step::Done { value: ud, pos } => (r.0 matches Ok(v) && opt_bytes(v) == ud.data)
                    && final(buffer)@ == ud.buffer && final(br).spec_pos() == pos,
                Step::Fail { failure, pos } => (r.0 matches Err(e) && failure_is(e, failure))
                    && final(br).spec_pos() == pos,
            },
            final(buffer)@.len() == 131072,
    {
        let ghost bits = old(br).spec_bits();
        let ghost pos = old(br).spec_pos();
        proof {
            br.lemma_valid();
        }
        let size: usize = if self.using_varint_bitcounts {
            match br.read_ubitvar() {
                Ok(v) => v as usize,
                Err(e) => {
                    return (Err(e), Ghost(true));
                },
            }
        } else {
            match br.read_bits(MAX_USERDATA_BITS) {
                Ok(v) => {
                    proof {
                        crate::io::bits::lemma_bits_value_bound(bits.subrange(pos as int, pos + 17 as int));
                        vstd::arithmetic::power2::lemma2_to64();
                    }
                    v as usize
                },
                Err(e) => {
                    return (Err(e), Ghost(true));
                },
            }
        };
        let max = limits.max_string_table_user_data_bytes();
        if let Err(e) = check(limits, "string-table user data", size, max) {
            return (Err(e), Ghost(true));
        }
        if size > MAX_USERDATA_SIZE {
            let mut context = String::from_str("string-table user data size ");
            push_decimal(&mut context, size as u64);
            context.append(" exceeds 131072 bytes");
            return (Err(Error::Parse { context }), Ghost(true));
        }
        let mut stored: Vec<u8> = vec![0u8; size];
        if let Err(e) = br.read_bytes(stored.as_mut_slice()) {
            return (Err(e), Ghost(true));
        }
        let mut j: usize = 0;
        while j < size
            invariant
                j <= size <= 131072,
                stored@.len() == size,
                buffer@.len() == 131072,
                old(buffer)@.len() == 131072,
                buffer@ == stored@.take(j as int) + old(buffer)@.skip(j as int),
            decreases size - j,
        {
            buffer.set(j, stored[j]);
            j = j + 1;
            proof {
                assert(buffer@ =~= stored@.take(j as int) + old(buffer)@.skip(j as int));
            }
        }
        proof {
            assert(stored@.take(size as int) =~= stored@);
        }
        if compressed {
            let (inflated, reserved) = inflate(stored.as_slice(), max, "decompressed string-table user data");
            match inflated {
                Ok(d) => (Ok(Some(d)), reserved),
                Err(e) => (Err(e), reserved),
            }
        } else {
            (Ok(Some(stored)), Ghost(true))
        }
    }

    fn read_user_data(&self, br: &mut BitReader, limits: &DecodeLimits, buffer: &mut Vec<u8>) -> (r: (
        Result<Option<Vec<u8>>, Error>,
        Ghost<bool>,
    ))
        requires
            old(br).wf(),
            old(buffer)@.len() == 131072,
        ensures
            final(br).wf(),
            final(br).spec_data() == old(br).spec_data(),
            match user_data_step(self@.config, limits@, old(br).spec_bits(), old(br).spec_pos(), old(buffer)@, r.1@) {
                Step::Done { value: ud, pos } => (r.0 matches Ok(v) && opt_bytes(v) == ud.data)
                    && final(buffer)@ == ud.buffer && final(br).spec_pos() == pos,
                Step::Fail { failure, pos } => (r.0 matches Err(e) && failure_is(e, failure))
                    && final(br).spec_pos() == pos,
            },
            final(buffer)@.len() == 131072,
    {
        proof {
            vstd::arithmetic::power2::lemma2_to64();
            lemma_one_bit(old(br).spec_bits(), old(br).spec_pos());
        }
        let present = match br.read_bool() {
            Ok(b) => b,
            Err(e) => {
                return (Err(e), Ghost(true));
            },
        };
        if !present {
            return (Ok(None), Ghost(true));
        }
        if self.user_data_fixed_size {
            return (self.read_fixed_user_data(br, limits, buffer), Ghost(true));
        }
        let compressed = if (self.flags & 1) != 0 {
            match br.read_bool() {
                Ok(b) => b,
                Err(e) => {
                    return (Err(e), Ghost(true));
                },
            }
        } else {
            false
        };
        self.read_sized_user_data(br, limits, buffer, compressed)
    }
}


/// The views of entries after a push.
proof fn lemma_view_push(s: Seq<StringTableEntry>, e: StringTableEntry)
    ensures
        entries_view(s.push(e)) == entries_view(s).push(e@),
{
    assert(entries_view(s.push(e)) =~= entries_view(s).push(e@));
}

/// The views of entries after replacing one.
proof fn lemma_view_update(s: Seq<StringTableEntry>, i: int, e: StringTableEntry)
    requires
        0 <= i < s.len(),
    ensures
        entries_view(s.update(i, e)) == entries_view(s).update(i, e@),
{
    assert(entries_view(s.update(i, e)) =~= entries_view(s).update(i, e@));
}

/// An entry with neither string nor user data.
fn empty_entry() -> (r: StringTableEntry)
    ensures
        r@ == (EntryModel { string: None, user_data: None }),
{
    StringTableEntry { string: None, user_data: None }
}

impl StringTable {
    fn new(
        name: &str,
        user_data_fixed_size: bool,
        user_data_size: i32,
        user_data_size_bits: i32,
        flags: i32,
        using_varint_bitcounts: bool,
    ) -> (r: Self)
        ensures
            r@ == (TableModel {
                name: name@,
                config: TableConfig {
                    fixed: user_data_fixed_size,
                    size: user_data_size,
                    size_bits: user_data_size_bits,
                    flags,
                    varint_bitcounts: using_varint_bitcounts,
                },
                entries: Seq::empty(),
                dirty: Seq::empty(),
            }),
    {
        let r = StringTable {
            name: String::from_str(name),
            user_data_fixed_size,
            user_data_size,
            user_data_size_bits,
            flags,
            using_varint_bitcounts,
            entries: Vec::new(),
            dirty: Vec::new(),
        };
        assert(entries_view(r.entries@) =~= Seq::empty());
        r
    }

    /// Protocol table name.
    pub fn name(&self) -> (r: &str)
        ensures
            r@ == self@.name,
    {
        self.name.as_str()
    }

    /// All current table entries.
    pub fn entries(&self) -> (r: &[StringTableEntry])
        ensures
            entries_view(r@) == self@.entries,
    {
        self.entries.as_slice()
    }

    /// Look up an entry by numeric index.
    pub fn get(&self, index: usize) -> (r: Option<&StringTableEntry>)
        ensures
            index < self@.entries.len() ==> (r matches Some(e) && e@ == self@.entries[index as int]),
            index >= self@.entries.len() ==> r is None,
    {
        if index < self.entries.len() {
            Some(&self.entries[index])
        } else {
            None
        }
    }

    /// Entry indices written since the last per-tick callback. Indices may repeat.
    pub fn dirty_indices(&self) -> (r: &[usize])
        ensures
            r@ == self@.dirty,
    {
        self.dirty.as_slice()
    }

    /// Write a decoded entry at `idx` and mark it dirty.
    fn apply(&mut self, idx: usize, string: Option<String>, user_data: Option<Vec<u8>>)
        ensures
            final(self)@ == (TableModel {
                entries: apply_entry(old(self)@.entries, idx as nat, opt_chars(string), opt_bytes(user_data)),
                dirty: old(self)@.dirty.push(idx),
                ..old(self)@
            }),
    {
        let ghost before = entries_view(self.entries@);
        if idx < self.entries.len() {
            let merged_string = match string {
                Some(s) => Some(s),
                None => match &self.entries[idx].string {
                    Some(s) => Some(s.clone()),
                    None => None,
                },
            };
            let merged_data = match user_data {
                Some(d) => Some(d),
                None => match &self.entries[idx].user_data {
                    Some(d) => Some(vstd::slice::slice_to_vec(d.as_slice())),
                    None => None,
                },
            };
            let ghost prev = self.entries@;
            assert(before[idx as int] == prev[idx as int]@);
            self.entries.set(idx, StringTableEntry { string: merged_string, user_data: merged_data });
            proof {
                lemma_view_update(prev, idx as int, StringTableEntry { string: merged_string, user_data: merged_data });
            }
        } else {
            while self.entries.len() < idx
                invariant
                    self@.name == old(self)@.name,
                    self@.config == old(self)@.config,
                    self@.dirty == old(self)@.dirty,
                    before == old(self)@.entries,
                    before.len() <= self.entries@.len() <= idx,
                    entries_view(self.entries@) == before + Seq::new(
                        (self.entries@.len() - before.len()) as nat,
                        |i: int| EntryModel { string: None, user_data: None },
                    ),
                decreases idx - self.entries@.len(),
            {
                let ghost prev = self.entries@;
                let e = empty_entry();
                self.entries.push(e);
                proof {
                    lemma_view_push(prev, e);
                    assert(entries_view(self.entries@) =~= before + Seq::new(
                        (self.entries@.len() - before.len()) as nat,
                        |i: int| EntryModel { string: None, user_data: None },
                    ));
                }
            }
            let ghost prev = self.entries@;
            let e = StringTableEntry { string, user_data };
            self.entries.push(e);
            proof {
                lemma_view_push(prev, e);
                assert(entries_view(self.entries@) =~= apply_entry(
                    before,
                    idx as nat,
                    opt_chars(string),
                    opt_bytes(user_data),
                ));
            }
        }
        self.dirty.push(idx);
    }

    /// Parse a string table update from a bit reader, with the default limits.
    pub fn parse_update(&mut self, br: &mut BitReader, num_entries: i32) -> (r: Result<(), Error>)
        requires
            old(br).wf(),
        ensures
            final(br).wf(),
            final(br).spec_data() == old(br).spec_data(),
            update_result(
                old(self)@,
                final(self)@,
                crate::limits::default_limits(),
                old(br).spec_bits(),
                old(br).spec_pos(),
                final(br).spec_pos(),
                num_entries,
                r,
            ),
    {
        let limits = DecodeLimits::default();
        self.parse_update_with_limits(br, num_entries, &limits)
    }

    /// Parse `num_entries` entries from `br` into this table, checking each
    /// size against `limits`.
    ///
    /// Entries that were decoded before a failure stay written.
    pub fn parse_update_with_limits(
        &mut self,
        br: &mut BitReader,
        num_entries: i32,
        limits: &DecodeLimits,
    ) -> (r: Result<(), Error>)
        requires
            old(br).wf(),
        ensures
            final(br).wf(),
            final(br).spec_data() == old(br).spec_data(),
            update_result(
                old(self)@,
                final(self)@,
                limits@,
                old(br).spec_bits(),
                old(br).spec_pos(),
                final(br).spec_pos(),
                num_entries,
                r,
            ),
    {
        if num_entries < 0 {
            let mut context = String::from_str("negative string-table entry count ");
            push_signed(&mut context, num_entries as i64);
            return Err(Error::Parse { context });
        }
        let entry_count = num_entries as usize;
        if let Err(e) = check(limits, "string table entries", entry_count, limits.max_string_table_entries()) {
            return Err(e);
        }
        let ghost cfg = self@.config;
        let ghost bits = old(br).spec_bits();
        let ghost start = start_progress(old(self)@, old(br).spec_pos());
        let mut scratch = Scratch::new();
        let ghost mut allocs: Seq<bool> = Seq::empty();
        let mut i: usize = 0;
        while i < entry_count
            invariant
                br.wf(),
                br.spec_data() == old(br).spec_data(),
                bits == br.spec_bits(),
                entry_count <= 0x7fff_ffff,
                entry_count == num_entries,
                entry_count <= limits@.max_string_table_entries,
                i <= entry_count,
                allocs.len() == i,
                cfg == self@.config,
                cfg == old(self)@.config,
                self@.name == old(self)@.name,
                start == start_progress(old(self)@, old(br).spec_pos()),
                scratch.wf(i as nat),
                run_entries(cfg, limits@, bits, start, allocs).failure is None,
                run_entries(cfg, limits@, bits, start, allocs).entries == self@.entries,
                run_entries(cfg, limits@, bits, start, allocs).dirty == self@.dirty,
                run_entries(cfg, limits@, bits, start, allocs).state == scratch.state(br.spec_pos()),
            decreases entry_count - i,
        {
            let (entry, reserved) = self.read_entry(br, limits, &mut scratch, i);
            proof {
                assert(allocs.push(reserved@).drop_last() =~= allocs);
            }
            match entry {
                Ok((idx, text, user_data)) => {
                    proof {
                        allocs = allocs.push(reserved@);
                    }
                    self.apply(idx, text, user_data);
                },
                Err(e) => {
                    proof {
                        self.fail_after(cfg, limits@, bits, start, allocs, reserved@, entry_count as nat);
                        let full = allocs.push(reserved@) + Seq::new(
                            (entry_count - allocs.len() - 1) as nat,
                            |k: int| false,
                        );
                        let p = run_entries(cfg, limits@, bits, start, full);
                        assert(p.entries == self@.entries);
                        assert(p.dirty == self@.dirty);
                        assert(p.failure matches Some((f, pos)) && failure_is(e, f) && br.spec_pos() == pos);
                        assert(full.len() == num_entries);
                    }
                    return Err(e);
                },
            }
            i = i + 1;
        }
        proof {
            assert(allocs == allocs + Seq::new(0, |k: int| false));
        }
        Ok(())
    }

    /// Decode the next entry.
    fn read_entry(&self, br: &mut BitReader, limits: &DecodeLimits, scratch: &mut Scratch, done: usize) -> (r: (
        Result<(usize, Option<String>, Option<Vec<u8>>), Error>,
        Ghost<bool>,
    ))
        requires
            old(br).wf(),
            old(scratch).wf(done as nat),
            done < 0x7fff_ffff,
        ensures
            final(br).wf(),
            final(br).spec_data() == old(br).spec_data(),
            ({
                let (step, next) = entry_step(
                    self@.config,
                    limits@,
                    old(br).spec_bits(),
                    old(scratch).state(old(br).spec_pos()),
                    r.1@,
                );
                match step {
                    Step::Done { value: e, pos } => {
                        &&& r.0 matches Ok((idx, text, data)) && idx == e.idx && opt_chars(text)
                            == entry_string(e.string) && opt_bytes(data) == e.user_data
                        &&& final(scratch).wf((done + 1) as nat)
                        &&& final(scratch).state(final(br).spec_pos()) == next
                        &&& final(br).spec_pos() == pos
                    },
                    Step::Fail { failure, pos } => (r.0 matches Err(e) && failure_is(e, failure))
                        && final(br).spec_pos() == pos,
                }
            }),
    {
        reveal(entry_step);
        let ghost bits = old(br).spec_bits();
        let index = match read_index(br, scratch.index) {
            Ok(v) => v,
            Err(e) => {
                return (Err(e), Ghost(true));
            },
        };
        if index as u64 > usize::MAX as u64 {
            let mut context = String::from_str("negative string-table entry index ");
            push_signed(&mut context, index);
            return (Err(Error::Parse { context }), Ghost(true));
        }
        let idx = index as usize;
        let counted: usize = if idx == usize::MAX {
            usize::MAX
        } else {
            idx + 1
        };
        if let Err(e) = check(limits, "string table entry index", counted, limits.max_string_table_entries()) {
            return (Err(e), Ghost(true));
        }
        let string = match read_entry_string(br, &scratch.history, scratch.hdi) {
            Ok(s) => s,
            Err(e) => {
                return (Err(e), Ghost(true));
            },
        };
        let (user_data, reserved) = self.read_user_data(br, limits, &mut scratch.user_buf);
        let user_data = match user_data {
            Ok(d) => d,
            Err(e) => {
                return (Err(e), reserved);
            },
        };
        let text = match &string {
            Some(bytes) => {
                store_string(&mut scratch.history, scratch.hdi, bytes.as_slice());
                scratch.hdi = scratch.hdi + 1;
                Some(lossy_string(bytes.as_slice()))
            },
            None => None,
        };
        scratch.index = index;
        (Ok((idx, text, user_data)), reserved)
    }

    /// After entry `allocs.len()` failed with allocation outcome `last`,
    /// padding the outcomes to `count` entries keeps that failure.
    proof fn fail_after(
        &self,
        cfg: TableConfig,
        lim: LimitsModel,
        bits: Seq<bool>,
        start: UpdateProgress,
        allocs: Seq<bool>,
        last: bool,
        count: nat,
    )
        requires
            allocs.len() < count,
            run_entries(cfg, lim, bits, start, allocs).failure is None,
            entry_step(cfg, lim, bits, run_entries(cfg, lim, bits, start, allocs).state, last).0 is Fail,
        ensures
            ({
                let full = allocs.push(last) + Seq::new((count - allocs.len() - 1) as nat, |i: int| false);
                &&& full.len() == count
                &&& run_entries(cfg, lim, bits, start, full) == run_entries(cfg, lim, bits, start, allocs.push(last))
                &&& run_entries(cfg, lim, bits, start, allocs.push(last)).failure is Some
            }),
    {
        assert(allocs.push(last).drop_last() =~= allocs);
        lemma_failure_persists(cfg, lim, bits, start, allocs.push(last), (count - allocs.len() - 1) as nat);
    }
}

/// `r`, the table `after` and the reader position `pos1` are what
/// updating `before` with `n` entries from `bits` at `pos0` produces:
/// a negative count or one above the entry limit is refused with the table
/// untouched; otherwise the entries are decoded one by one, for some
/// outcome of each entry's memory reservation, and decoding stops at the
/// first failure.
pub open spec fn update_result(
    before: TableModel,
    after: TableModel,
    lim: LimitsModel,
    bits: Seq<bool>,
    pos0: nat,
    pos1: nat,
    n: i32,
    r: Result<(), Error>,
) -> bool {
    &&& after.name == before.name
    &&& after.config == before.config
    &&& if n < 0 {
        &&& r matches Err(Error::Parse { context }) && context@ == negative_count_message(n)
        &&& after == before
        &&& pos1 == pos0
    } else if n as usize > lim.max_string_table_entries {
        &&& r == Err::<(), Error>(
            Error::LimitExceeded {
                resource: "string table entries",
                limit: lim.max_string_table_entries,
                actual: n as usize,
            },
        )
        &&& after == before
        &&& pos1 == pos0
    } else {
        exists|allocs: Seq<bool>|
            #![trigger run_entries(before.config, lim, bits, start_progress(before, pos0), allocs)]
            {
                let p = run_entries(before.config, lim, bits, start_progress(before, pos0), allocs);
                &&& allocs.len() == n
                &&& after.entries == p.entries
                &&& after.dirty == p.dirty
                &&& match p.failure {
                    None => r is Ok && pos1 == p.state.pos,
                    Some((f, pos)) => (r matches Err(e) && failure_is(e, f)) && pos1 == pos,
                }
            }
    }
}


/// Container for all string tables.
#[derive(Clone)]
pub struct StringTableContainer {
    tables: Vec<StringTable>,
    instance_baselines: HashMap<i32, Vec<u8>>,
}

/// A container as values: its tables in creation order and the cached
/// instance baselines by class ID.
pub struct ContainerModel {
    pub tables: Seq<TableModel>,
    pub baselines: Map<i32, Seq<u8>>,
}

/// The views of a list of tables.
pub open spec fn tables_view(tables: Seq<StringTable>) -> Seq<TableModel> {
    tables.map_values(|t: StringTable| t@)
}

impl View for StringTableContainer {
    type V = ContainerModel;

    closed spec fn view(&self) -> ContainerModel {
        ContainerModel {
            tables: tables_view(self.tables@),
            baselines: self.instance_baselines@.map_values(|v: Vec<u8>| v@),
        }
    }
}

/// The empty table that a create message starts from.
pub open spec fn fresh_table(msg: CreateStringTable) -> TableModel {
    TableModel {
        name: msg.name@,
        config: TableConfig {
            fixed: msg.user_data_fixed_size,
            size: msg.user_data_size,
            size_bits: msg.user_data_size_bits,
            flags: msg.flags,
            varint_bitcounts: msg.using_varint_bitcounts,
        },
        entries: Seq::empty(),
        dirty: Seq::empty(),
    }
}

/// Largest buffer whose bit length a `usize` can count.
pub open spec fn max_bit_buffer() -> usize {
    (usize::MAX / 8) as usize
}

/// `r` and the container `after` are what parsing `data` into `table`
/// as the update of `n` entries produces, where `table` is
/// `before.tables[slot]` or, when `slot` is the table count, a new table
/// appended on success; `ok` is what a success returns.
pub open spec fn parsed_into(
    before: ContainerModel,
    after: ContainerModel,
    table: TableModel,
    slot: int,
    data: Seq<u8>,
    n: i32,
    lim: LimitsModel,
    ok: bool,
    r: Result<bool, Error>,
) -> bool {
    if data.len() > max_bit_buffer() {
        &&& r == Err::<bool, Error>(
            Error::LimitExceeded {
                resource: "string-table bit length",
                limit: max_bit_buffer(),
                actual: data.len() as usize,
            },
        )
        &&& after == before
    } else {
        exists|t: TableModel, pos1: nat, rr: Result<(), Error>|
            #![trigger update_result(table, t, lim, stream_bits(data), 0, pos1, n, rr)]
            {
                &&& update_result(table, t, lim, stream_bits(data), 0, pos1, n, rr)
                &&& after.baselines == before.baselines
                &&& if slot == before.tables.len() {
                    match rr {
                        Ok(_) => r == Ok::<bool, Error>(ok) && after.tables == before.tables.push(t),
                        Err(e) => r == Err::<bool, Error>(e) && after.tables == before.tables,
                    }
                } else {
                    &&& after.tables == before.tables.update(slot, t)
                    &&& match rr {
                        Ok(_) => r == Ok::<bool, Error>(ok),
                        Err(e) => r == Err::<bool, Error>(e),
                    }
                }
            }
    }
}

/// `r` and `after` are what handling the create message `msg` produces,
/// where `reserved` tells whether reserving memory for decompressed data,
/// if that was attempted, succeeded.
pub open spec fn create_result(
    before: ContainerModel,
    after: ContainerModel,
    msg: CreateStringTable,
    lim: LimitsModel,
    reserved: bool,
    r: Result<bool, Error>,
) -> bool {
    let max = lim.max_string_table_data_bytes;
    let ok = msg.name@ == INSTANCE_BASELINE_TABLE_NAME@;
    if msg.string_data@.len() > max {
        &&& r == Err::<bool, Error>(
            Error::LimitExceeded {
                resource: "string-table data",
                limit: max,
                actual: msg.string_data@.len() as usize,
            },
        )
        &&& after == before
    } else if !msg.data_compressed {
        parsed_into(
            before,
            after,
            fresh_table(msg),
            before.tables.len() as int,
            msg.string_data@,
            msg.num_entries,
            lim,
            ok,
            r,
        )
    } else {
        let limit = lim.max_decompressed_string_table_bytes;
        let resource = "decompressed string-table data";
        match inflate_outcome(msg.string_data@, limit, reserved) {
            Inflated::Bytes(d) => parsed_into(
                before,
                after,
                fresh_table(msg),
                before.tables.len() as int,
                d,
                msg.num_entries,
                lim,
                ok,
                r,
            ),
            Inflated::OverLimit { actual } => r == Err::<bool, Error>(
                Error::LimitExceeded { resource, limit, actual },
            ) && after == before,
            Inflated::NoMemory { requested } => r == Err::<bool, Error>(
                Error::Allocation { resource, requested },
            ) && after == before,
            Inflated::Corrupt => (r matches Err(Error::Decompress(_))) && after == before,
        }
    }
}

/// Message of a negative table ID.
pub open spec fn negative_table_message(id: i32) -> Seq<char> {
    "invalid negative string table ID "@ + signed_digits(id as int)
}

/// Message of a table ID past the last table.
pub open spec fn missing_table_message(id: usize) -> Seq<char> {
    "string table update for non-existent table "@ + digits(id as nat)
}

/// `r` and `after` are what handling the update message `msg` produces.
pub open spec fn update_table_result(
    before: ContainerModel,
    after: ContainerModel,
    msg: UpdateStringTable,
    lim: LimitsModel,
    r: Result<bool, Error>,
) -> bool {
    let max = lim.max_string_table_data_bytes;
    if msg.string_data@.len() > max {
        &&& r == Err::<bool, Error>(
            Error::LimitExceeded {
                resource: "string-table data",
                limit: max,
                actual: msg.string_data@.len() as usize,
            },
        )
        &&& after == before
    } else if msg.table_id < 0 {
        &&& r matches Err(Error::Parse { context }) && context@ == negative_table_message(msg.table_id)
        &&& after == before
    } else if msg.table_id >= before.tables.len() {
        &&& r matches Err(Error::Parse { context }) && context@ == missing_table_message(
            msg.table_id as usize,
        )
        &&& after == before
    } else {
        let table = before.tables[msg.table_id as int];
        parsed_into(
            before,
            after,
            table,
            msg.table_id as int,
            msg.string_data@,
            msg.num_changed_entries,
            lim,
            table.name == INSTANCE_BASELINE_TABLE_NAME@,
            r,
        )
    }
}

/// Whether a table is named `instancebaseline`.
fn is_baseline_name(name: &str) -> (r: bool)
    ensures
        r == (name@ == INSTANCE_BASELINE_TABLE_NAME@),
{
    let chars = chars_of(name);
    crate::chars::is_text(chars.as_slice(), INSTANCE_BASELINE_TABLE_NAME)
}

/// The views of tables after a push.
proof fn lemma_tables_push(s: Seq<StringTable>, t: StringTable)
    ensures
        tables_view(s.push(t)) == tables_view(s).push(t@),
{
    assert(tables_view(s.push(t)) =~= tables_view(s).push(t@));
}

/// The views of tables after replacing one.
proof fn lemma_tables_update(s: Seq<StringTable>, i: int, t: StringTable)
    requires
        0 <= i < s.len(),
    ensures
        tables_view(s.update(i, t)) == tables_view(s).update(i, t@),
{
    assert(tables_view(s.update(i, t)) =~= tables_view(s).update(i, t@));
}

impl Default for StringTableContainer {
    fn default() -> (r: Self)
        ensures
            r@ == (ContainerModel { tables: Seq::empty(), baselines: Map::empty() }),
    {
        StringTableContainer::new()
    }
}

impl StringTableContainer {
    /// An empty container.
    pub fn new() -> (r: Self)
        ensures
            r@ == (ContainerModel { tables: Seq::empty(), baselines: Map::empty() }),
    {
        let r = StringTableContainer { tables: Vec::new(), instance_baselines: HashMap::new() };
        assert(tables_view(r.tables@) =~= Seq::empty());
        assert(r.instance_baselines@.map_values(|v: Vec<u8>| v@) =~= Map::empty());
        r
    }

    /// Parse `data` into `table` and store it at `slot`, or push it when
    /// `slot` is the table count and parsing succeeds.
    fn parse_into(
        &mut self,
        table: StringTable,
        slot: usize,
        data: &[u8],
        n: i32,
        limits: &DecodeLimits,
        ok: bool,
    ) -> (r: Result<bool, Error>)
        requires
            slot <= old(self)@.tables.len(),
            slot < old(self)@.tables.len() ==> old(self).tables@.len() == old(self)@.tables.len(),
        ensures
            parsed_into(old(self)@, final(self)@, table@, slot as int, data@, n, limits@, ok, r),
    {
        let ghost before = self@;
        let mut table = table;
        let ghost t0 = table@;
        if data.len() > usize::MAX / 8 {
            return Err(
                Error::LimitExceeded {
                    resource: "string-table bit length",
                    limit: usize::MAX / 8,
                    actual: data.len(),
                },
            );
        }
        let mut br = BitReader::new(data);
        let parsed = table.parse_update_with_limits(&mut br, n, limits);
        let ghost t = table@;
        let ghost pos1 = br.spec_pos();
        assert(update_result(t0, t, limits@, stream_bits(data@), 0, pos1, n, parsed));
        if slot == self.tables.len() {
            match parsed {
                Ok(()) => {
                    let ghost prev = self.tables@;
                    self.tables.push(table);
                    proof {
                        lemma_tables_push(prev, table);
                    }
                    Ok(ok)
                },
                Err(e) => Err(e),
            }
        } else {
            let ghost prev = self.tables@;
            self.tables.set(slot, table);
            proof {
                lemma_tables_update(prev, slot as int, table);
            }
            match parsed {
                Ok(()) => Ok(ok),
                Err(e) => Err(e),
            }
        }
    }

    /// Create a table from a game protobuf adapter, with the default limits.
    pub fn handle_create(&mut self, msg: CreateStringTable) -> (r: Result<bool, Error>)
        ensures
            exists|reserved: bool|
                create_result(old(self)@, final(self)@, msg, crate::limits::default_limits(), reserved, r),
    {
        let limits = DecodeLimits::default();
        self.handle_create_with_limits(msg, &limits)
    }

    /// Create a table from a message, checking sizes against `limits`.
    /// Returns whether the new table holds the instance baselines.
    pub fn handle_create_with_limits(&mut self, msg: CreateStringTable, limits: &DecodeLimits) -> (r: Result<bool, Error>)
        ensures
            exists|reserved: bool| create_result(old(self)@, final(self)@, msg, limits@, reserved, r),
    {
        let ghost m = msg;
        let max = limits.max_string_table_data_bytes();
        if msg.string_data.len() > max {
            let r = Err(Error::LimitExceeded { resource: "string-table data", limit: max, actual: msg.string_data.len() });
            assert(create_result(old(self)@, self@, m, limits@, true, r));
            return r;
        }
        let is_baseline = is_baseline_name(msg.name.as_str());
        let table = StringTable::new(
            msg.name.as_str(),
            msg.user_data_fixed_size,
            msg.user_data_size,
            msg.user_data_size_bits,
            msg.flags,
            msg.using_varint_bitcounts,
        );
        let slot = self.tables.len();
        if msg.data_compressed {
            let (inflated, reserved) = inflate(
                msg.string_data.as_slice(),
                limits.max_decompressed_string_table_bytes(),
                "decompressed string-table data",
            );
            match inflated {
                Ok(data) => {
                    let r = self.parse_into(table, slot, data.as_slice(), msg.num_entries, limits, is_baseline);
                    assert(create_result(old(self)@, self@, m, limits@, reserved@, r));
                    r
                },
                Err(e) => {
                    let r = Err(e);
                    assert(create_result(old(self)@, self@, m, limits@, reserved@, r));
                    r
                },
            }
        } else {
            let r = self.parse_into(table, slot, msg.string_data.as_slice(), msg.num_entries, limits, is_baseline);
            assert(create_result(old(self)@, self@, m, limits@, true, r));
            r
        }
    }

    /// Update a table from a game protobuf adapter, with the default limits.
    pub fn handle_update(&mut self, msg: UpdateStringTable) -> (r: Result<bool, Error>)
        ensures
            update_table_result(old(self)@, final(self)@, msg, crate::limits::default_limits(), r),
    {
        let limits = DecodeLimits::default();
        self.handle_update_with_limits(msg, &limits)
    }

    /// Apply an update message to the table it names, checking sizes
    /// against `limits`. Returns whether that table holds the instance
    /// baselines. Entries decoded before a failure stay written.
    pub fn handle_update_with_limits(&mut self, msg: UpdateStringTable, limits: &DecodeLimits) -> (r: Result<bool, Error>)
        ensures
            update_table_result(old(self)@, final(self)@, msg, limits@, r),
    {
        let max = limits.max_string_table_data_bytes();
        if msg.string_data.len() > max {
            return Err(Error::LimitExceeded { resource: "string-table data", limit: max, actual: msg.string_data.len() });
        }
        if msg.table_id < 0 {
            let mut context = String::from_str("invalid negative string table ID ");
            push_signed(&mut context, msg.table_id as i64);
            return Err(Error::Parse { context });
        }
        let table_id = msg.table_id as usize;
        if table_id >= self.tables.len() {
            let mut context = String::from_str("string table update for non-existent table ");
            push_decimal(&mut context, table_id as u64);
            return Err(Error::Parse { context });
        }
        let is_baseline = is_baseline_name(self.tables[table_id].name.as_str());
        let ghost before = self@;
        let table = self.tables[table_id].clone_table();
        assert(table@ == before.tables[table_id as int]);
        self.parse_into(table, table_id, msg.string_data.as_slice(), msg.num_changed_entries, limits, is_baseline)
    }

    /// Returns a slice of all string tables.
    pub fn tables(&self) -> (r: &[StringTable])
        ensures
            tables_view(r@) == self@.tables,
    {
        self.tables.as_slice()
    }

    /// Look up a string table by name: the first one created with it.
    pub fn find_table(&self, name: &str) -> (r: Option<&StringTable>)
        ensures
            match r {
                Some(t) => exists|i: int|
                    0 <= i < self@.tables.len() && self@.tables[i] == t@ && t@.name == name@ && forall|
                        j: int,
                    |
                        0 <= j < i ==> #[trigger] self@.tables[j].name != name@,
                None => forall|j: int| 0 <= j < self@.tables.len() ==> #[trigger] self@.tables[j].name != name@,
            },
    {
        let wanted = chars_of(name);
        let mut i: usize = 0;
        while i < self.tables.len()
            invariant
                i <= self.tables@.len(),
                wanted@ == name@,
                self@.tables == tables_view(self.tables@),
                forall|j: int| 0 <= j < i ==> #[trigger] self@.tables[j].name != name@,
            decreases self.tables@.len() - i,
        {
            let table_name = chars_of(self.tables[i].name.as_str());
            if same_chars(table_name.as_slice(), wanted.as_slice()) {
                assert(self@.tables[i as int] == self.tables@[i as int]@);
                return Some(&self.tables[i]);
            }
            i = i + 1;
        }
        None
    }

    /// Cached instance baseline bytes for a numeric class ID.
    pub fn instance_baseline(&self, class_id: i32) -> (r: Option<&[u8]>)
        ensures
            self@.baselines.contains_key(class_id) ==> (r matches Some(b) && b@ == self@.baselines[class_id]),
            !self@.baselines.contains_key(class_id) ==> r is None,
    {
        broadcast use vstd::std_specs::hash::group_hash_axioms;

        match self.instance_baselines.get(&class_id) {
            Some(v) => Some(v.as_slice()),
            None => None,
        }
    }

    /// Clear every table's dirty-index list.
    pub fn clear_dirty(&mut self)
        ensures
            final(self)@.baselines == old(self)@.baselines,
            final(self)@.tables.len() == old(self)@.tables.len(),
            forall|i: int|
                0 <= i < old(self)@.tables.len() ==> #[trigger] final(self)@.tables[i] == (TableModel {
                    dirty: Seq::empty(),
                    ..old(self)@.tables[i]
                }),
    {
        let mut i: usize = 0;
        while i < self.tables.len()
            invariant
                i <= self.tables@.len(),
                self.tables@.len() == old(self).tables@.len(),
                self.instance_baselines == old(self).instance_baselines,
                forall|k: int|
                    0 <= k < i ==> #[trigger] self.tables@[k]@ == (TableModel {
                        dirty: Seq::empty(),
                        ..old(self).tables@[k]@
                    }),
                forall|k: int| i <= k < self.tables@.len() ==> #[trigger] self.tables@[k] == old(self).tables@[k],
            decreases self.tables@.len() - i,
        {
            let mut table = self.tables[i].clone_table();
            table.dirty = Vec::new();
            self.tables.set(i, table);
            i = i + 1;
        }
    }
}

impl StringTable {
    /// A copy of this table.
    fn clone_table(&self) -> (r: StringTable)
        ensures
            r@ == self@,
    {
        let mut entries: Vec<StringTableEntry> = Vec::new();
        let mut i: usize = 0;
        while i < self.entries.len()
            invariant
                i <= self.entries@.len(),
                entries_view(entries@) == entries_view(self.entries@.take(i as int)),
            decreases self.entries@.len() - i,
        {
            let e = &self.entries[i];
            let copy = StringTableEntry {
                string: match &e.string {
                    Some(s) => Some(s.clone()),
                    None => None,
                },
                user_data: match &e.user_data {
                    Some(d) => Some(vstd::slice::slice_to_vec(d.as_slice())),
                    None => None,
                },
            };
            let ghost prev = entries@;
            entries.push(copy);
            proof {
                lemma_view_push(prev, copy);
                assert(self.entries@.take(i + 1) =~= self.entries@.take(i as int).push(self.entries@[i as int]));
                lemma_view_push(self.entries@.take(i as int), self.entries@[i as int]);
            }
            i = i + 1;
        }
        proof {
            assert(self.entries@.take(self.entries@.len() as int) =~= self.entries@);
        }
        StringTable {
            name: self.name.clone(),
            user_data_fixed_size: self.user_data_fixed_size,
            user_data_size: self.user_data_size,
            user_data_size_bits: self.user_data_size_bits,
            flags: self.flags,
            using_varint_bitcounts: self.using_varint_bitcounts,
            entries,
            dirty: vstd::slice::slice_to_vec(self.dirty.as_slice()),
        }
    }
}


/// Entries and dirty marks after a full-packet snapshot writes `items`,
/// item `k` at index `k`: an existing entry takes only the item's user
/// data, and only when it has some; a new index takes the whole item.
pub open spec fn snapshot_entries(entries: Seq<EntryModel>, dirty: Seq<usize>, items: Seq<EntryModel>) -> (
    Seq<EntryModel>,
    Seq<usize>,
)
    decreases items.len(),
{
    if items.len() == 0 {
        (entries, dirty)
    } else {
        let (e, d) = snapshot_entries(entries, dirty, items.drop_last());
        let index = (items.len() - 1) as nat;
        let item = items.last();
        if index < e.len() {
            if item.user_data is Some {
                (
                    e.update(index as int, EntryModel { user_data: item.user_data, ..e[index as int] }),
                    d.push(index as usize),
                )
            } else {
                (e, d)
            }
        } else {
            (
                e + Seq::new(
                    (index - e.len()) as nat,
                    |i: int| EntryModel { string: None, user_data: None },
                ) + seq![item],
                d.push(index as usize),
            )
        }
    }
}

/// A snapshot only adds dirty marks, keeps every entry index, and leaves
/// the table at least as long as the snapshot.
pub proof fn lemma_snapshot_grows(entries: Seq<EntryModel>, dirty: Seq<usize>, items: Seq<EntryModel>)
    ensures
        dirty.is_prefix_of(snapshot_entries(entries, dirty, items).1),
        snapshot_entries(entries, dirty, items).0.len() >= entries.len(),
        snapshot_entries(entries, dirty, items).0.len() >= items.len(),
    decreases items.len(),
{
    if items.len() > 0 {
        lemma_snapshot_grows(entries, dirty, items.drop_last());
    }
}

/// Decoding update entries only adds dirty marks, one for each entry
/// written, and never shortens the table.
pub proof fn lemma_update_marks_grow(
    cfg: TableConfig,
    lim: LimitsModel,
    bits: Seq<bool>,
    start: UpdateProgress,
    allocs: Seq<bool>,
)
    ensures
        start.dirty.is_prefix_of(run_entries(cfg, lim, bits, start, allocs).dirty),
        run_entries(cfg, lim, bits, start, allocs).dirty.len() <= start.dirty.len() + allocs.len(),
        run_entries(cfg, lim, bits, start, allocs).entries.len() >= start.entries.len(),
    decreases allocs.len(),
{
    if allocs.len() > 0 {
        lemma_update_marks_grow(cfg, lim, bits, start, allocs.drop_last());
    }
}

/// Index of the first table named `name`.
pub open spec fn first_named(tables: Seq<TableModel>, name: Seq<char>) -> Option<nat>
    decreases tables.len(),
{
    if tables.len() == 0 {
        None
    } else {
        match first_named(tables.drop_last(), name) {
            Some(i) => Some(i),
            None => if tables.last().name == name {
                Some((tables.len() - 1) as nat)
            } else {
                None
            },
        }
    }
}

/// Tables after applying the snapshot `incoming`, and the entry count of
/// the first table whose item count exceeds the limit, which stops it.
pub open spec fn snapshot_tables(
    tables: Seq<TableModel>,
    incoming: Seq<(Seq<char>, Seq<EntryModel>)>,
    max: usize,
) -> (Seq<TableModel>, Option<nat>)
    decreases incoming.len(),
{
    if incoming.len() == 0 {
        (tables, None)
    } else {
        let (t, failed) = snapshot_tables(tables, incoming.drop_last(), max);
        let (name, items) = incoming.last();
        if failed is Some {
            (t, failed)
        } else if items.len() > max {
            (t, Some(items.len()))
        } else {
            match first_named(t, name) {
                None => (t, None),
                Some(i) => {
                    let (e, d) = snapshot_entries(t[i as int].entries, t[i as int].dirty, items);
                    (t.update(i as int, TableModel { entries: e, dirty: d, ..t[i as int] }), None)
                },
            }
        }
    }
}

/// A snapshot as values.
pub open spec fn snapshot_view(incoming: Seq<(String, Vec<StringTableEntry>)>) -> Seq<(Seq<char>, Seq<EntryModel>)> {
    incoming.map_values(|p: (String, Vec<StringTableEntry>)| (p.0@, entries_view(p.1@)))
}

/// Instance baselines after reading `entries`: each entry whose string is
/// a class ID and that has user data sets that class's baseline.
pub open spec fn baselines_from(m: Map<i32, Seq<u8>>, entries: Seq<EntryModel>) -> Map<i32, Seq<u8>>
    decreases entries.len(),
{
    if entries.len() == 0 {
        m
    } else {
        let prev = baselines_from(m, entries.drop_last());
        let e = entries.last();
        match (e.string, e.user_data) {
            (Some(s), Some(d)) => match parse_i32(s) {
                Some(id) => prev.insert(id, d),
                None => prev,
            },
            _ => prev,
        }
    }
}

/// A copy of an entry.
fn copy_entry(e: &StringTableEntry) -> (r: StringTableEntry)
    ensures
        r@ == e@,
{
    StringTableEntry {
        string: match &e.string {
            Some(s) => Some(s.clone()),
            None => None,
        },
        user_data: match &e.user_data {
            Some(d) => Some(vstd::slice::slice_to_vec(d.as_slice())),
            None => None,
        },
    }
}

impl StringTable {
    /// Write a full-packet snapshot's items into this table.
    fn apply_snapshot(&mut self, items: &Vec<StringTableEntry>)
        ensures
            ({
                let (e, d) = snapshot_entries(old(self)@.entries, old(self)@.dirty, entries_view(items@));
                final(self)@ == (TableModel { entries: e, dirty: d, ..old(self)@ })
            }),
    {
        let mut k: usize = 0;
        while k < items.len()
            invariant
                k <= items@.len(),
                self@.name == old(self)@.name,
                self@.config == old(self)@.config,
                ({
                    let (e, d) = snapshot_entries(
                        old(self)@.entries,
                        old(self)@.dirty,
                        entries_view(items@).take(k as int),
                    );
                    self@.entries == e && self@.dirty == d
                }),
            decreases items@.len() - k,
        {
            proof {
                assert(entries_view(items@).take(k + 1).drop_last() =~= entries_view(items@).take(k as int));
            }
            let item = copy_entry(&items[k]);
            if k < self.entries.len() {
                match item.user_data {
                    Some(data) => {
                        let string = match &self.entries[k].string {
                            Some(s) => Some(s.clone()),
                            None => None,
                        };
                        let ghost prev = self.entries@;
                        let updated = StringTableEntry { string, user_data: Some(data) };
                        self.entries.set(k, updated);
                        proof {
                            lemma_view_update(prev, k as int, updated);
                        }
                        self.dirty.push(k);
                    },
                    None => {},
                }
            } else {
                let ghost prev = self.entries@;
                self.entries.push(item);
                proof {
                    lemma_view_push(prev, item);
                    assert(entries_view(prev) + Seq::new(0, |i: int| EntryModel { string: None, user_data: None })
                        =~= entries_view(prev));
                }
                self.dirty.push(k);
            }
            k = k + 1;
        }
        proof {
            assert(entries_view(items@).take(items@.len() as int) =~= entries_view(items@));
        }
    }
}

impl StringTableContainer {
    /// Index of the first table named `name`.
    fn position_of(&self, name: &[char]) -> (r: Option<usize>)
        ensures
            r matches Some(i) ==> i < self.tables@.len() && self@.tables[i as int] == self.tables@[i as int]@,
            self@.tables.len() == self.tables@.len(),
            match r {
                Some(i) => first_named(self@.tables, name@) == Some(i as nat),
                None => first_named(self@.tables, name@) is None,
            },
    {
        let mut i: usize = 0;
        while i < self.tables.len()
            invariant
                i <= self.tables@.len(),
                self@.tables == tables_view(self.tables@),
                first_named(self@.tables.take(i as int), name@) is None,
            decreases self.tables@.len() - i,
        {
            proof {
                assert(self@.tables.take(i + 1).drop_last() =~= self@.tables.take(i as int));
            }
            let table_name = chars_of(self.tables[i].name.as_str());
            if same_chars(table_name.as_slice(), name) {
                proof {
                    lemma_first_named_prefix(self@.tables, name@, (i + 1) as nat);
                }
                return Some(i);
            }
            i = i + 1;
        }
        proof {
            assert(self@.tables.take(i as int) =~= self@.tables);
        }
        None
    }

    /// Apply a full-packet string-table snapshot, with the default limits.
    pub fn do_full_update(&mut self, incoming_tables: Vec<(String, Vec<StringTableEntry>)>) -> (r: Result<(), Error>)
        ensures
            snapshot_result(old(self)@, final(self)@, snapshot_view(incoming_tables@), crate::limits::default_limits(), r),
    {
        let limits = DecodeLimits::default();
        self.do_full_update_with_limits(incoming_tables, &limits)
    }

    /// Apply a full-packet snapshot: each named table that exists takes the
    /// listed entries; a list longer than the entry limit stops the update
    /// with the tables before it already written.
    pub fn do_full_update_with_limits(
        &mut self,
        incoming_tables: Vec<(String, Vec<StringTableEntry>)>,
        limits: &DecodeLimits,
    ) -> (r: Result<(), Error>)
        ensures
            snapshot_result(old(self)@, final(self)@, snapshot_view(incoming_tables@), limits@, r),
    {
        let ghost all = snapshot_view(incoming_tables@);
        let max = limits.max_string_table_entries();
        let mut k: usize = 0;
        while k < incoming_tables.len()
            invariant
                k <= incoming_tables@.len(),
                all == snapshot_view(incoming_tables@),
                max == limits@.max_string_table_entries,
                self@.baselines == old(self)@.baselines,
                snapshot_tables(old(self)@.tables, all.take(k as int), max) == (self@.tables, None::<nat>),
            decreases incoming_tables@.len() - k,
        {
            proof {
                assert(all.take(k + 1).drop_last() =~= all.take(k as int));
            }
            let name = chars_of(incoming_tables[k].0.as_str());
            let items = &incoming_tables[k].1;
            if items.len() > max {
                proof {
                    lemma_snapshot_failure_persists(old(self)@.tables, all, max, (k + 1) as nat);
                }
                return Err(Error::LimitExceeded { resource: "full string-table entries", limit: max, actual: items.len() });
            }
            match self.position_of(name.as_slice()) {
                Some(i) => {
                    let mut table = self.tables[i].clone_table();
                    table.apply_snapshot(items);
                    let ghost prev = self.tables@;
                    self.tables.set(i, table);
                    proof {
                        lemma_tables_update(prev, i as int, table);
                    }
                },
                None => {},
            }
            k = k + 1;
        }
        proof {
            assert(all.take(k as int) =~= all);
        }
        Ok(())
    }

    /// Update instance baselines from the `instancebaseline` string table.
    pub fn update_instance_baselines(&mut self)
        ensures
            final(self)@.tables == old(self)@.tables,
            final(self)@.baselines == match first_named(old(self)@.tables, INSTANCE_BASELINE_TABLE_NAME@) {
                Some(i) => baselines_from(old(self)@.baselines, old(self)@.tables[i as int].entries),
                None => old(self)@.baselines,
            },
    {
        broadcast use vstd::std_specs::hash::group_hash_axioms;

        let wanted = chars_of(INSTANCE_BASELINE_TABLE_NAME);
        let found = self.position_of(wanted.as_slice());
        let t = match found {
            Some(t) => t,
            None => {
                return;
            },
        };
        let ghost entries = self@.tables[t as int].entries;
        let mut k: usize = 0;
        while k < self.tables[t].entries.len()
            invariant
                t < self.tables@.len(),
                self@.tables == old(self)@.tables,
                entries == self@.tables[t as int].entries,
                entries == entries_view(self.tables@[t as int].entries@),
                k <= entries.len(),
                self@.baselines == baselines_from(old(self)@.baselines, entries.take(k as int)),
            decreases entries.len() - k,
        {
            proof {
                assert(entries.take(k + 1).drop_last() =~= entries.take(k as int));
            }
            let e = &self.tables[t].entries[k];
            if let (Some(s), Some(data)) = (&e.string, &e.user_data) {
                let chars = chars_of(s.as_str());
                if let Some(class_id) = parse_i32_chars(chars.as_slice()) {
                    let copy = vstd::slice::slice_to_vec(data.as_slice());
                    let ghost before = self.instance_baselines@;
                    self.instance_baselines.insert(class_id, copy);
                    proof {
                        assert(self.instance_baselines@.map_values(|v: Vec<u8>| v@) =~= before.map_values(
                            |v: Vec<u8>| v@,
                        ).insert(class_id, copy@));
                    }
                }
            }
            k = k + 1;
        }
        proof {
            assert(entries.take(entries.len() as int) =~= entries);
        }
    }
}

/// The first table named `name` among the first `n` is the first overall.
proof fn lemma_first_named_prefix(tables: Seq<TableModel>, name: Seq<char>, n: nat)
    requires
        n <= tables.len(),
    ensures
        first_named(tables.take(n as int), name) is Some ==> first_named(tables, name) == first_named(
            tables.take(n as int),
            name,
        ),
    decreases tables.len() - n,
{
    if n < tables.len() {
        lemma_first_named_prefix(tables, name, n + 1);
        assert(tables.take(n + 1 as int).drop_last() =~= tables.take(n as int));
    } else {
        assert(tables.take(n as int) =~= tables);
    }
}

/// Once a snapshot has stopped, later tables change nothing.
proof fn lemma_snapshot_failure_persists(
    tables: Seq<TableModel>,
    incoming: Seq<(Seq<char>, Seq<EntryModel>)>,
    max: usize,
    n: nat,
)
    requires
        n <= incoming.len(),
        snapshot_tables(tables, incoming.take(n as int), max).1 is Some,
    ensures
        snapshot_tables(tables, incoming, max) == snapshot_tables(tables, incoming.take(n as int), max),
    decreases incoming.len() - n,
{
    if n < incoming.len() {
        assert(incoming.take(n + 1 as int).drop_last() =~= incoming.take(n as int));
        lemma_snapshot_failure_persists(tables, incoming, max, n + 1);
    } else {
        assert(incoming.take(n as int) =~= incoming);
    }
}

/// `r` and `after` are what applying the snapshot `incoming` produces.
pub open spec fn snapshot_result(
    before: ContainerModel,
    after: ContainerModel,
    incoming: Seq<(Seq<char>, Seq<EntryModel>)>,
    lim: LimitsModel,
    r: Result<(), Error>,
) -> bool {
    let (tables, failed) = snapshot_tables(before.tables, incoming, lim.max_string_table_entries);
    &&& after.tables == tables
    &&& after.baselines == before.baselines
    &&& match failed {
        None => r is Ok,
        Some(n) => r == Err::<(), Error>(
            Error::LimitExceeded {
                resource: "full string-table entries",
                limit: lim.max_string_table_entries,
                actual: n as usize,
            },
        ),
    }
}

} // verus!
