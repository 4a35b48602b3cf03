//! The mathematical model of Source 2 bit streams and their encodings.
//!
//! A byte buffer is read least-significant bit first: bit `i` of the stream
//! is bit `i % 8` of byte `i / 8`. Multi-bit fields are little-endian, so the
//! first bit read carries weight 1.

use vstd::arithmetic::div_mod::{lemma_breakdown, lemma_small_mod};
use vstd::arithmetic::power2::{lemma_pow2_pos, lemma_pow2_unfold, pow2};
use vstd::prelude::*;

use crate::error::{Error, Failure};

verus! {

/// Bit `i` of the little-endian bit stream over `data`.
pub open spec fn bit_of(data: Seq<u8>, i: int) -> bool {
    (data[i / 8] as nat / pow2((i % 8) as nat)) % 2 == 1
}

/// All bits of `data` in stream order.
pub open spec fn stream_bits(data: Seq<u8>) -> Seq<bool> {
    Seq::new((data.len() * 8) as nat, |i: int| bit_of(data, i))
}

/// Unsigned value of a bit sequence whose first element is the least
/// significant bit.
pub open spec fn bits_value(s: Seq<bool>) -> nat
    decreases s.len(),
{
    if s.len() == 0 {
        0
    } else {
        bits_value(s.drop_last()) + if s.last() {
            pow2((s.len() - 1) as nat)
        } else {
            0
        }
    }
}

/// Value of the `count` bits of `bits` that start at `pos`.
pub open spec fn field(bits: Seq<bool>, pos: int, count: int) -> nat {
    bits_value(bits.subrange(pos, pos + count))
}

/// The `count` least significant bits of `value`, least significant first.
pub open spec fn value_bits(value: nat, count: nat) -> Seq<bool> {
    Seq::new(count, |k: int| (value / pow2(k as nat)) % 2 == 1)
}

/// A value read from `count` bits is below `2^count`.
pub proof fn lemma_bits_value_bound(s: Seq<bool>)
    ensures
        bits_value(s) < pow2(s.len()),
    decreases s.len(),
{
    lemma_pow2_pos(s.len());
    if s.len() > 0 {
        lemma_bits_value_bound(s.drop_last());
        lemma_pow2_unfold(s.len());
    }
}

/// The whole bytes available from bit `pos` on, each read as 8 bits.
pub open spec fn bytes_at(bits: Seq<bool>, pos: int) -> Seq<u8> {
    Seq::new(((bits.len() - pos) / 8) as nat, |j: int| field(bits, pos + 8 * j, 8) as u8)
}

/// How one read of an encoded value ends.
pub enum Decoded {
    /// The read produced `value` and consumed `len` bits.
    Value { value: nat, len: nat },
    /// A step of the read needed `needed` bits where only `available` were left.
    Short { needed: nat, available: nat },
    /// The bits do not form a valid encoding.
    Invalid,
}

/// Reading `count` plain bits at `pos`.
pub open spec fn fixed_read(bits: Seq<bool>, pos: int, count: nat) -> Decoded {
    if pos + count <= bits.len() {
        Decoded::Value { value: field(bits, pos, count as int), len: count }
    } else {
        Decoded::Short { needed: count, available: (bits.len() - pos) as nat }
    }
}

/// A read that first consumed `prefix` bits and then performed `rest`.
pub open spec fn after_prefix(prefix: nat, rest: Decoded) -> Decoded {
    match rest {
        Decoded::Value { value, len } => Decoded::Value { value, len: prefix + len },
        other => other,
    }
}

/// Number of extra bits that follow a `ubitvar` head with the given tag.
pub open spec fn ubitvar_extra_bits(tag: nat) -> nat {
    if tag == 0 {
        0
    } else if tag == 1 {
        4
    } else if tag == 2 {
        8
    } else {
        28
    }
}

/// Valve's `ubitvar`: a 6-bit head whose top two bits select how many more
/// bits extend its low four bits.
pub open spec fn ubitvar_read(bits: Seq<bool>, pos: int) -> Decoded {
    match fixed_read(bits, pos, 6) {
        Decoded::Value { value: head, len: _ } => {
            let extra = ubitvar_extra_bits(head / 16);
            match fixed_read(bits, pos + 6, extra) {
                Decoded::Value { value: high, len: _ } => Decoded::Value {
                    value: head % 16 + high * 16,
                    len: 6 + extra,
                },
                other => other,
            }
        },
        other => other,
    }
}

/// The layout of Valve's `ubitvar`, stated against the bits themselves: a
/// 6-bit head below 16 is the whole value; a head of 16 to 31, 32 to 47 or
/// 48 to 63 is followed by 4, 8 or 28 more bits, which stand above the
/// head's low four bits; when those bits are missing the read asks for
/// exactly that many.
pub proof fn lemma_ubitvar_layout(bits: Seq<bool>, pos: int)
    requires
        0 <= pos,
        pos + 6 <= bits.len(),
    ensures
        field(bits, pos, 6) < 16 ==> ubitvar_read(bits, pos) == (Decoded::Value {
            value: field(bits, pos, 6),
            len: 6,
        }),
        16 <= field(bits, pos, 6) < 32 && pos + 10 <= bits.len() ==> ubitvar_read(bits, pos) == (Decoded::Value {
            value: (field(bits, pos, 6) - 16 + 16 * field(bits, pos + 6, 4)) as nat,
            len: 10,
        }),
        32 <= field(bits, pos, 6) < 48 && pos + 14 <= bits.len() ==> ubitvar_read(bits, pos) == (Decoded::Value {
            value: (field(bits, pos, 6) - 32 + 16 * field(bits, pos + 6, 8)) as nat,
            len: 14,
        }),
        48 <= field(bits, pos, 6) && pos + 34 <= bits.len() ==> ubitvar_read(bits, pos) == (Decoded::Value {
            value: (field(bits, pos, 6) - 48 + 16 * field(bits, pos + 6, 28)) as nat,
            len: 34,
        }),
        16 <= field(bits, pos, 6) < 32 && pos + 10 > bits.len() ==> ubitvar_read(bits, pos) == (Decoded::Short {
            needed: 4,
            available: (bits.len() - pos - 6) as nat,
        }),
        32 <= field(bits, pos, 6) < 48 && pos + 14 > bits.len() ==> ubitvar_read(bits, pos) == (Decoded::Short {
            needed: 8,
            available: (bits.len() - pos - 6) as nat,
        }),
        48 <= field(bits, pos, 6) && pos + 34 > bits.len() ==> ubitvar_read(bits, pos) == (Decoded::Short {
            needed: 28,
            available: (bits.len() - pos - 6) as nat,
        }),
{
    lemma_bits_value_bound(bits.subrange(pos, pos + 6));
    vstd::arithmetic::power2::lemma2_to64();
    assert(bits.subrange(pos + 6, pos + 6) =~= Seq::<bool>::empty());
}

/// Payload width selected by the `i`-th prefix bit of a field-path `ubitvar`.
pub open spec fn ubitvarfp_width(i: nat) -> nat {
    if i == 0 {
        2
    } else if i == 1 {
        4
    } else if i == 2 {
        10
    } else if i == 3 {
        17
    } else {
        31
    }
}

/// The field-path `ubitvar` from its `i`-th prefix bit on: each clear prefix
/// bit moves to a wider payload, four clear bits select the widest.
pub open spec fn ubitvarfp_from(bits: Seq<bool>, pos: int, i: nat) -> Decoded
    decreases 4 - i,
{
    if i >= 4 {
        after_prefix(4, fixed_read(bits, pos + 4, 31))
    } else if pos + i >= bits.len() {
        Decoded::Short { needed: 1, available: 0 }
    } else if bits[pos + i] {
        after_prefix(i + 1, fixed_read(bits, pos + i + 1, ubitvarfp_width(i)))
    } else {
        ubitvarfp_from(bits, pos, i + 1)
    }
}

/// The field-path `ubitvar` that starts at `pos`.
pub open spec fn ubitvarfp_read(bits: Seq<bool>, pos: int) -> Decoded {
    ubitvarfp_from(bits, pos, 0)
}

/// The layout of the field-path `ubitvar`, stated against the bits
/// themselves: a set first bit is followed by a 2-bit value; otherwise a
/// set second bit by a 4-bit value, a set third bit by a 10-bit value, a
/// set fourth bit by a 17-bit value, and four clear bits by a 31-bit value.
pub proof fn lemma_ubitvarfp_layout(bits: Seq<bool>, pos: int)
    requires
        0 <= pos,
    ensures
        pos + 3 <= bits.len() && bits[pos] ==> ubitvarfp_read(bits, pos) == (Decoded::Value {
            value: field(bits, pos + 1, 2),
            len: 3,
        }),
        pos + 6 <= bits.len() && !bits[pos] && bits[pos + 1] ==> ubitvarfp_read(bits, pos) == (Decoded::Value {
            value: field(bits, pos + 2, 4),
            len: 6,
        }),
        pos + 13 <= bits.len() && !bits[pos] && !bits[pos + 1] && bits[pos + 2] ==> ubitvarfp_read(bits, pos) == (
        Decoded::Value { value: field(bits, pos + 3, 10), len: 13 }),
        pos + 21 <= bits.len() && !bits[pos] && !bits[pos + 1] && !bits[pos + 2] && bits[pos + 3]
            ==> ubitvarfp_read(bits, pos) == (Decoded::Value { value: field(bits, pos + 4, 17), len: 21 }),
        pos + 35 <= bits.len() && !bits[pos] && !bits[pos + 1] && !bits[pos + 2] && !bits[pos + 3]
            ==> ubitvarfp_read(bits, pos) == (Decoded::Value { value: field(bits, pos + 4, 31), len: 35 }),
{
    reveal_with_fuel(ubitvarfp_from, 5);
}

/// Zigzag decoding sends even numbers to the non-negative values and odd
/// numbers to the negative ones: `2k` to `k` and `2k + 1` to `-k - 1`.
pub proof fn lemma_zigzag_values(k: nat)
    ensures
        zigzag(2 * k) == k,
        zigzag(2 * k + 1) == -(k as int) - 1,
{
}

/// How reading a protobuf-style base-128 varint from a byte sequence ends.
pub enum VarintRead {
    /// The varint's value and its length in bytes.
    Value { value: nat, len: nat },
    /// Byte number `at` of the varint is missing.
    Truncated { at: nat },
    /// More than the allowed number of bytes carry the continuation bit.
    TooLong,
}

/// The varint bytes from index `index` on, at most `max_len` bytes in all.
/// Byte `i` contributes its low seven bits with weight `2^(7 i)`.
pub open spec fn varint_from(bytes: Seq<u8>, index: nat, max_len: nat) -> VarintRead
    decreases max_len - index,
{
    if index >= max_len {
        VarintRead::TooLong
    } else if index >= bytes.len() {
        VarintRead::Truncated { at: index }
    } else if bytes[index as int] < 128 {
        VarintRead::Value { value: (bytes[index as int] as nat) * pow2(7 * index), len: index + 1 }
    } else {
        match varint_from(bytes, index + 1, max_len) {
            VarintRead::Value { value, len } => VarintRead::Value {
                value: ((bytes[index as int] - 128) as nat) * pow2(7 * index) + value,
                len,
            },
            other => other,
        }
    }
}

/// The varint at the start of `bytes`, at most `max_len` bytes long.
pub open spec fn varint_read(bytes: Seq<u8>, max_len: nat) -> VarintRead {
    varint_from(bytes, 0, max_len)
}

/// A varint read bit-wise at `pos`, at most `max_len` bytes long.
pub open spec fn varint_bits_read(bits: Seq<bool>, pos: int, max_len: nat) -> Decoded {
    match varint_read(bytes_at(bits, pos), max_len) {
        VarintRead::Value { value, len } => Decoded::Value { value, len: 8 * len },
        VarintRead::Truncated { at } => Decoded::Short {
            needed: 8,
            available: (bits.len() - pos - 8 * at) as nat,
        },
        VarintRead::TooLong => Decoded::Invalid,
    }
}

/// The low 32 bits of `n`.
pub open spec fn low_u32(n: nat) -> u32 {
    (n % pow2(32)) as u32
}

/// The low 64 bits of `n`.
pub open spec fn low_u64(n: nat) -> u64 {
    (n % pow2(64)) as u64
}

/// The signed value that zigzag encoding maps to `n`.
pub open spec fn zigzag(n: nat) -> int {
    if n % 2 == 0 {
        (n / 2) as int
    } else {
        -((n / 2) as int) - 1
    }
}

/// `r`, and a move from `pos0` to `pos1`, are what reading `d` produces: a
/// value read moves past its bits, a read that fails leaves the position
/// where it was and reports why. The value itself is stated beside this.
pub open spec fn read_matches<T>(d: Decoded, r: Result<T, Error>, pos0: nat, pos1: nat) -> bool {
    match d {
        Decoded::Value { value, len } => r is Ok && pos1 == pos0 + len,
        Decoded::Short { needed, available } => r == Err::<T, Error>(
            Error::Overflow { needed: needed as usize, available: available as usize },
        ) && pos1 == pos0,
        Decoded::Invalid => (r matches Err(Error::Parse { .. })) && pos1 == pos0,
    }
}

/// The failure of a read that did not produce a value.
pub open spec fn read_failure(d: Decoded) -> Failure {
    match d {
        Decoded::Short { needed, available } => Failure::Exact(
            Error::Overflow { needed: needed as usize, available: available as usize },
        ),
        _ => Failure::AnyParse,
    }
}

/// Bits needed to read `n` whole bytes, saturated at the largest `usize`.
pub open spec fn byte_bits_needed(n: nat) -> nat {
    if 8 * n <= usize::MAX {
        8 * n
    } else {
        usize::MAX as nat
    }
}

/// Number of bytes that hold `count` bits.
pub open spec fn bytes_for_bits(count: nat) -> nat {
    (count + 7) / 8
}

/// `count` bits from `pos` packed into bytes, least significant bit first;
/// the last byte holds the leftover bits in its low positions.
pub open spec fn bits_to_bytes(bits: Seq<bool>, pos: int, count: nat) -> Seq<u8> {
    Seq::new(
        bytes_for_bits(count),
        |j: int|
            field(bits, pos + 8 * j, if count - 8 * j >= 8 { 8 } else { count - 8 * j }) as u8,
    )
}

/// Value of little-endian bytes.
pub open spec fn le_value(bytes: Seq<u8>) -> nat {
    bits_value(stream_bits(bytes))
}

/// The stream bits of a run of bytes are those of the run on its own.
pub proof fn lemma_stream_bits_subrange(data: Seq<u8>, start: int, end: int)
    requires
        0 <= start <= end <= data.len(),
    ensures
        stream_bits(data).subrange(8 * start, 8 * end) =~= stream_bits(data.subrange(start, end)),
{
    let a = stream_bits(data).subrange(8 * start, 8 * end);
    let b = stream_bits(data.subrange(start, end));
    assert forall|i: int| 0 <= i < a.len() implies a[i] == b[i] by {
        assert((8 * start + i) / 8 == start + i / 8);
        assert((8 * start + i) % 8 == i % 8);
    }
}

/// The whole bytes from byte `start` on are the bytes of the buffer there.
pub proof fn lemma_bytes_at_aligned(data: Seq<u8>, start: int)
    requires
        0 <= start <= data.len(),
    ensures
        bytes_at(stream_bits(data), 8 * start) =~= data.skip(start),
{
    let a = bytes_at(stream_bits(data), 8 * start);
    assert(a.len() == data.len() - start);
    assert forall|j: int| 0 <= j < a.len() implies a[j] == data.skip(start)[j] by {
        lemma_byte_bits(data, start + j);
        assert(8 * start + 8 * j == 8 * (start + j));
    }
}

/// How reading a null-terminated string into a buffer of `cap` bytes ends.
pub enum CStringRead {
    /// The string has `len` bytes; its terminator follows them.
    Done { len: nat },
    /// Byte number `at` is missing; the bytes before it were stored.
    Truncated { at: nat },
    /// The buffer filled before a terminator was found.
    TooLong,
}

/// The null-terminated string from byte `j` of `bytes` on.
pub open spec fn cstring_from(bytes: Seq<u8>, j: nat, cap: nat) -> CStringRead
    decreases cap - j,
{
    if j >= bytes.len() {
        CStringRead::Truncated { at: j }
    } else if bytes[j as int] == 0 {
        CStringRead::Done { len: j }
    } else if j >= cap {
        CStringRead::TooLong
    } else {
        cstring_from(bytes, j + 1, cap)
    }
}

/// Number of string bytes a null-terminated read stores into its buffer.
pub open spec fn cstring_stored(r: CStringRead, cap: nat) -> nat {
    match r {
        CStringRead::Done { len } => len,
        CStringRead::Truncated { at } => at,
        CStringRead::TooLong => cap,
    }
}

/// A varint that starts at byte `index` and ends after byte `len` is worth
/// less than `2^(7 len)`, with room for one more unit of `2^(7 index)`.
pub proof fn lemma_varint_bound(bytes: Seq<u8>, index: nat, max_len: nat)
    ensures
        varint_from(bytes, index, max_len) matches VarintRead::Value { value, len } ==> index < len
            <= max_len && len <= bytes.len() && value + pow2(7 * index) <= pow2(7 * len),
        index <= bytes.len() ==> (varint_from(bytes, index, max_len) matches VarintRead::Truncated { at }
            ==> at == bytes.len()),
    decreases max_len - index,
{
    if index < max_len && index < bytes.len() {
        let b = bytes[index as int] as nat;
        lemma_pow2_pos(7 * index);
        vstd::arithmetic::power2::lemma_pow2_adds(7 * index, 7);
        vstd::arithmetic::power2::lemma2_to64();
        assert(7 * index + 7 == 7 * (index + 1));
        if b < 128 {
            assert(b * pow2(7 * index) + pow2(7 * index) <= pow2(7 * index) * 128) by (nonlinear_arith)
                requires
                    b < 128,
            ;
        } else {
            lemma_varint_bound(bytes, index + 1, max_len);
            assert(((b - 128) as nat) * pow2(7 * index) + pow2(7 * index) <= pow2(7 * index) * 128)
                by (nonlinear_arith)
                requires
                    b < 256,
                    b >= 128,
            ;
        }
    }
}

/// The bits of `value`, read back, give `value` modulo `2^count`.
pub proof fn lemma_value_bits_roundtrip(value: nat, count: nat)
    ensures
        bits_value(value_bits(value, count)) == value % pow2(count),
    decreases count,
{
    lemma_pow2_pos(count);
    if count == 0 {
        assert(value_bits(value, 0) =~= Seq::<bool>::empty());
        vstd::arithmetic::power2::lemma2_to64();
    } else {
        let prev = (count - 1) as nat;
        lemma_value_bits_roundtrip(value, prev);
        assert(value_bits(value, count).drop_last() =~= value_bits(value, prev));
        lemma_pow2_pos(prev);
        lemma_pow2_unfold(count);
        lemma_breakdown(value as int, pow2(prev) as int, 2);
        assert(pow2(prev) * 2 == pow2(count)) by (nonlinear_arith)
            requires
                pow2(count) == 2 * pow2(prev),
        ;
    }
}

/// The 8 stream bits of byte `i` are the bits of that byte.
pub proof fn lemma_byte_bits(data: Seq<u8>, i: int)
    requires
        0 <= i < data.len(),
    ensures
        stream_bits(data).subrange(8 * i, 8 * i + 8) =~= value_bits(data[i] as nat, 8),
        field(stream_bits(data), 8 * i, 8) == data[i],
{
    let s = stream_bits(data).subrange(8 * i, 8 * i + 8);
    assert forall|k: int| 0 <= k < 8 implies s[k] == value_bits(data[i] as nat, 8)[k] by {
        assert((8 * i + k) / 8 == i);
        assert((8 * i + k) % 8 == k);
    }
    assert(s =~= value_bits(data[i] as nat, 8));
    lemma_value_bits_roundtrip(data[i] as nat, 8);
    vstd::arithmetic::power2::lemma2_to64();
    lemma_small_mod(data[i] as nat, 256);
}

} // verus!
