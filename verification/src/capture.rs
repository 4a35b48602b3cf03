//! Statistics gathered while decoding field paths: how often each
//! path operation ran, how deep the paths it produced were, how many paths
//! each update held, and a fixed-size uniform sample of whole updates,
//! kept as text records.
use vstd::prelude::*;

use std::collections::BTreeMap;

use crate::io::bits::{bits_to_bytes, bytes_for_bits};
use crate::io::BitReader;
use crate::text::{digits, push_decimal};

verus! {

broadcast use vstd::std_specs::btree::group_btree_axioms;

/// Number of distinct field-path operations.
pub const OPERATION_KINDS: usize = 40;

/// Number of path depths that are counted.
pub const PATH_DEPTHS: usize = 7;

/// Number of updates the sample holds.
pub const SAMPLE_SIZE: u64 = 512;

/// Initial state of the sampling generator.
pub const SAMPLE_SEED: u64 = 0x5eed;

/// One step of the sampling generator, a 64-bit linear congruential
/// generator.
pub open spec fn next_random(r: u64) -> u64 {
    vstd::wrapping::u64_specs::wrapping_add(
        vstd::wrapping::u64_specs::wrapping_mul(r, 6364136223846793005u64),
        1,
    )
}

/// The sample place of the `updates`-th update: every one of the first
/// `SAMPLE_SIZE` updates has its own place, and a later one draws a
/// place below its own count, kept only when it falls inside the sample.
pub open spec fn sample_slot(updates: u64, random: u64) -> nat {
    if updates <= SAMPLE_SIZE {
        (updates - 1) as nat
    } else {
        (random % updates) as nat
    }
}

/// `x` rotated left by seven bits.
pub open spec fn rotl7(x: u64) -> u64 {
    (x << 7u64) | (x >> 57u64)
}

/// Digest of a list of packed paths: each step rotates the digest left
/// by seven bits and mixes in the next path.
pub open spec fn path_digest(packed: Seq<u64>) -> u64
    decreases packed.len(),
{
    if packed.len() == 0 {
        0
    } else {
        rotl7(path_digest(packed.drop_last())) ^ packed.last()
    }
}

/// The lower-case character of hexadecimal digit `d`.
pub open spec fn hex_char(d: nat) -> char {
    if d < 10 {
        (d + 48) as char
    } else {
        (d + 87) as char
    }
}

/// The low `width` hexadecimal digits of `v`, most significant first.
pub open spec fn hex_fixed(v: nat, width: nat) -> Seq<char>
    decreases width,
{
    if width == 0 {
        Seq::empty()
    } else {
        hex_fixed(v / 16, (width - 1) as nat).push(hex_char(v % 16))
    }
}

/// Each byte as two hexadecimal digits.
pub open spec fn hex_bytes(b: Seq<u8>) -> Seq<char>
    decreases b.len(),
{
    if b.len() == 0 {
        Seq::empty()
    } else {
        hex_bytes(b.drop_last()) + hex_fixed(b.last() as nat, 2)
    }
}

/// The record of one sampled update: its bit length, its path count, the
/// digest of its paths in sixteen hexadecimal digits, and its bits packed
/// into bytes, in hexadecimal.
pub open spec fn record_text(bit_len: nat, path_count: nat, digest: u64, encoded: Seq<u8>) -> Seq<char> {
    digits(bit_len) + seq![' '] + digits(path_count) + seq![' '] + hex_fixed(digest as nat, 16) + seq![' ']
        + hex_bytes(encoded)
}

/// The statistics as values.
pub struct CaptureModel {
    pub operations: Seq<u64>,
    pub depths: Seq<u64>,
    pub sizes: Map<usize, u64>,
    pub updates: u64,
    pub random: u64,
    pub records: Seq<Seq<char>>,
}

/// Counters and the sample of updates.
pub struct CaptureStats {
    operations: Vec<u64>,
    depths: Vec<u64>,
    sizes: BTreeMap<usize, u64>,
    updates: u64,
    random: u64,
    records: Vec<String>,
}

impl View for CaptureStats {
    type V = CaptureModel;

    closed spec fn view(&self) -> CaptureModel {
        CaptureModel {
            operations: self.operations@,
            depths: self.depths@,
            sizes: self.sizes@,
            updates: self.updates,
            random: self.random,
            records: self.records@.map_values(|s: String| s@),
        }
    }
}

impl CaptureStats {
    /// One counter per operation and per depth, and a sample that holds
    /// every update until it is full.
    pub open spec fn wf(&self) -> bool {
        &&& self@.operations.len() == OPERATION_KINDS
        &&& self@.depths.len() == PATH_DEPTHS
        &&& self@.records.len() == if self@.updates <= SAMPLE_SIZE {
            self@.updates as nat
        } else {
            SAMPLE_SIZE as nat
        }
    }

    /// No counts and an empty sample.
    pub fn new() -> (r: Self)
        ensures
            r.wf(),
            r@.operations == Seq::new(OPERATION_KINDS as nat, |i: int| 0u64),
            r@.depths == Seq::new(PATH_DEPTHS as nat, |i: int| 0u64),
            r@.sizes == Map::<usize, u64>::empty(),
            r@.updates == 0,
            r@.random == SAMPLE_SEED,
            r@.records == Seq::<Seq<char>>::empty(),
    {
        let mut operations: Vec<u64> = Vec::new();
        while operations.len() < OPERATION_KINDS
            invariant
                operations.len() <= OPERATION_KINDS,
                operations@ == Seq::new(operations.len() as nat, |i: int| 0u64),
            decreases OPERATION_KINDS - operations.len(),
        {
            operations.push(0);
            assert(operations@ =~= Seq::new(operations.len() as nat, |i: int| 0u64));
        }
        let mut depths: Vec<u64> = Vec::new();
        while depths.len() < PATH_DEPTHS
            invariant
                depths.len() <= PATH_DEPTHS,
                depths@ == Seq::new(depths.len() as nat, |i: int| 0u64),
            decreases PATH_DEPTHS - depths.len(),
        {
            depths.push(0);
            assert(depths@ =~= Seq::new(depths.len() as nat, |i: int| 0u64));
        }
        let r = CaptureStats {
            operations,
            depths,
            sizes: BTreeMap::new(),
            updates: 0,
            random: SAMPLE_SEED,
            records: Vec::new(),
        };
        assert(r@.records =~= Seq::<Seq<char>>::empty());
        r
    }

    /// Operation counts, by operation.
    pub fn operation_counts(&self) -> (r: &[u64])
        ensures
            r@ == self@.operations,
    {
        self.operations.as_slice()
    }

    /// Counts of paths left unfinished, by depth.
    pub fn depth_counts(&self) -> (r: &[u64])
        ensures
            r@ == self@.depths,
    {
        self.depths.as_slice()
    }

    /// Number of updates, by the number of paths they held.
    pub fn size_counts(&self) -> (r: &BTreeMap<usize, u64>)
        ensures
            r@ == self@.sizes,
    {
        &self.sizes
    }

    /// Number of updates seen.
    pub fn updates(&self) -> (r: u64)
        ensures
            r == self@.updates,
    {
        self.updates
    }

    /// The sampled records.
    pub fn records(&self) -> (r: &[String])
        ensures
            r@.map_values(|s: String| s@) == self@.records,
    {
        self.records.as_slice()
    }
}

/// Count one operation of kind `index` that has run, and the depth
/// `last` of the path it left when that path is not finished.
pub fn operation(stats: &mut CaptureStats, index: usize, finished: bool, last: usize)
    requires
        old(stats).wf(),
        index < OPERATION_KINDS,
        old(stats)@.operations[index as int] < u64::MAX,
        !finished ==> last < PATH_DEPTHS && old(stats)@.depths[last as int] < u64::MAX,
    ensures
        final(stats).wf(),
        final(stats)@ == (CaptureModel {
            operations: old(stats)@.operations.update(index as int, (old(stats)@.operations[index as int] + 1) as u64),
            depths: if finished {
                old(stats)@.depths
            } else {
                old(stats)@.depths.update(last as int, (old(stats)@.depths[last as int] + 1) as u64)
            },
            ..old(stats)@
        }),
{
    let count = stats.operations[index] + 1;
    stats.operations.set(index, count);
    if !finished {
        let depth = stats.depths[last] + 1;
        stats.depths.set(last, depth);
    }
}

/// One step of the sampling generator.
fn lcg_step(r: u64) -> (s: u64)
    ensures
        s == next_random(r),
{
    r.wrapping_mul(6364136223846793005u64).wrapping_add(1)
}

/// `x` rotated left by seven bits.
fn rotate7(x: u64) -> (r: u64)
    ensures
        r == rotl7(x),
{
    (x << 7u64) | (x >> 57u64)
}

/// The digest of a list of packed paths.
fn digest_of(packed: &[u64]) -> (r: u64)
    ensures
        r == path_digest(packed@),
{
    let mut value: u64 = 0;
    let mut i: usize = 0;
    while i < packed.len()
        invariant
            i <= packed@.len(),
            value == path_digest(packed@.take(i as int)),
        decreases packed@.len() - i,
    {
        proof {
            assert(packed@.take(i + 1).drop_last() =~= packed@.take(i as int));
        }
        value = rotate7(value) ^ packed[i];
        i = i + 1;
    }
    assert(packed@.take(i as int) =~= packed@);
    value
}

/// The one-character string of hexadecimal digit `d`.
fn hex_str(d: u64) -> (s: &'static str)
    requires
        d < 16,
    ensures
        s@ == seq![hex_char(d as nat)],
{
    proof {
        reveal_strlit("0");
        reveal_strlit("1");
        reveal_strlit("2");
        reveal_strlit("3");
        reveal_strlit("4");
        reveal_strlit("5");
        reveal_strlit("6");
        reveal_strlit("7");
        reveal_strlit("8");
        reveal_strlit("9");
        reveal_strlit("a");
        reveal_strlit("b");
        reveal_strlit("c");
        reveal_strlit("d");
        reveal_strlit("e");
        reveal_strlit("f");
    }
    match d {
        0 => "0",
        1 => "1",
        2 => "2",
        3 => "3",
        4 => "4",
        5 => "5",
        6 => "6",
        7 => "7",
        8 => "8",
        9 => "9",
        10 => "a",
        11 => "b",
        12 => "c",
        13 => "d",
        14 => "e",
        _ => "f",
    }
}

/// Append the low `width` hexadecimal digits of `v`.
fn push_hex(out: &mut String, v: u64, width: u64)
    ensures
        final(out)@ == old(out)@ + hex_fixed(v as nat, width as nat),
    decreases width,
{
    if width > 0 {
        push_hex(out, v / 16, width - 1);
        out.append(hex_str(v % 16));
    }
}

/// Append each byte as two hexadecimal digits.
fn push_hex_bytes(out: &mut String, bytes: &[u8])
    ensures
        final(out)@ == old(out)@ + hex_bytes(bytes@),
{
    let ghost start = out@;
    let mut i: usize = 0;
    while i < bytes.len()
        invariant
            i <= bytes@.len(),
            out@ == start + hex_bytes(bytes@.take(i as int)),
        decreases bytes@.len() - i,
    {
        proof {
            assert(bytes@.take(i + 1).drop_last() =~= bytes@.take(i as int));
        }
        push_hex(out, bytes[i] as u64, 2);
        i = i + 1;
    }
    assert(bytes@.take(i as int) =~= bytes@);
}

/// The record of one update.
fn record_of(bit_len: usize, path_count: usize, digest: u64, encoded: &[u8]) -> (r: String)
    ensures
        r@ == record_text(bit_len as nat, path_count as nat, digest, encoded@),
{
    proof {
        reveal_strlit(" ");
    }
    let mut out = String::new();
    push_decimal(&mut out, bit_len as u64);
    out.append(" ");
    push_decimal(&mut out, path_count as u64);
    out.append(" ");
    push_hex(&mut out, digest, 16);
    out.append(" ");
    push_hex_bytes(&mut out, encoded);
    assert(out@ =~= record_text(bit_len as nat, path_count as nat, digest, encoded@));
    out
}

/// The record of the update whose bits run from `start` to the reader's
/// position and whose paths, packed, are `packed_paths`.
fn sample_record(reader: &BitReader, start: usize, packed_paths: &[u64]) -> (r: String)
    requires
        reader.wf(),
        start <= reader.spec_pos(),
    ensures
        r@ == record_text(
            (reader.spec_pos() - start) as nat,
            packed_paths@.len(),
            path_digest(packed_paths@),
            bits_to_bytes(reader.spec_bits(), start as int, (reader.spec_pos() - start) as nat),
        ),
{
    proof {
        reader.lemma_valid();
    }
    let end = reader.position();
    let bit_len = end - start;
    let mut copy = BitReader::new(reader.data());
    let _ = copy.skip_bits(start);
    let mut encoded: Vec<u8> = Vec::new();
    encoded.resize(bit_len / 8 + if bit_len % 8 == 0 { 0 } else { 1 }, 0u8);
    let _ = copy.read_bits_to_bytes(encoded.as_mut_slice(), bit_len);
    assert(encoded@ =~= bits_to_bytes(reader.spec_bits(), start as int, bit_len as nat));
    let digest = digest_of(packed_paths);
    record_of(bit_len, packed_paths.len(), digest, encoded.as_slice())
}

/// Count one update whose paths, packed, are `packed_paths` and whose bits
/// run from `start` to the reader's position, and offer it to the sample.
pub fn update(stats: &mut CaptureStats, reader: &BitReader, start: usize, packed_paths: &[u64])
    requires
        old(stats).wf(),
        reader.wf(),
        start <= reader.spec_pos(),
        old(stats)@.updates < u64::MAX,
        old(stats)@.sizes.contains_key(packed_paths@.len() as usize) ==> old(stats)@.sizes[packed_paths@.len() as usize]
            < u64::MAX,
    ensures
        final(stats).wf(),
        ({
            let s0 = old(stats)@;
            let s1 = final(stats)@;
            let n = packed_paths@.len() as usize;
            let updates = (s0.updates + 1) as u64;
            let random = next_random(s0.random);
            let slot = sample_slot(updates, random);
            let bit_len = (reader.spec_pos() - start) as nat;
            let record = record_text(
                bit_len,
                n as nat,
                path_digest(packed_paths@),
                bits_to_bytes(reader.spec_bits(), start as int, bit_len),
            );
            &&& s1.operations == s0.operations
            &&& s1.depths == s0.depths
            &&& s1.updates == updates
            &&& s1.random == random
            &&& s1.sizes == s0.sizes.insert(
                n,
                if s0.sizes.contains_key(n) {
                    (s0.sizes[n] + 1) as u64
                } else {
                    1u64
                },
            )
            &&& s1.records == if slot >= SAMPLE_SIZE {
                s0.records
            } else if slot == s0.records.len() {
                s0.records.push(record)
            } else {
                s0.records.update(slot as int, record)
            }
        }),
{
    stats.updates = stats.updates + 1;
    let n = packed_paths.len();
    let count = match stats.sizes.get(&n) {
        Some(c) => *c + 1,
        None => 1,
    };
    stats.sizes.insert(n, count);
    stats.random = lcg_step(stats.random);
    let slot: u64 = if stats.updates <= SAMPLE_SIZE {
        stats.updates - 1
    } else {
        stats.random % stats.updates
    };
    if slot >= SAMPLE_SIZE {
        return;
    }
    let record = sample_record(reader, start, packed_paths);
    if (slot as usize) == stats.records.len() {
        stats.records.push(record);
    } else {
        stats.records.set(slot as usize, record);
    }
    assert(stats@.records =~= if slot as nat == old(stats)@.records.len() {
        old(stats)@.records.push(record@)
    } else {
        old(stats)@.records.update(slot as int, record@)
    });
}

} // verus!
