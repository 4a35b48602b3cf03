//! Least-significant-bit-first writer that builds bit streams in the
//! encodings that [`BitReader`](super::BitReader) reads.

use vstd::arithmetic::power2::{lemma_pow2_pos, pow2};
use vstd::bits::{lemma_u64_shr_is_div, lemma_u8_shr_is_div};
use vstd::prelude::*;
use vstd::string::StringSliceAdditionalSpecFns;

use super::bits::{
    bit_of, bytes_for_bits, field, fixed_read, lemma_byte_bits, lemma_value_bits_roundtrip,
    stream_bits, ubitvar_read, ubitvarfp_from, ubitvarfp_read, value_bits, varint_from, varint_read,
    zigzag, Decoded, VarintRead,
};

verus! {

/// `b | (1 << k)` has bit `k` set and every other bit of `b`.
proof fn lemma_or_bit(b: u8, k: u8, j: u8)
    requires
        k < 8,
        j < 8,
    ensures
        ((b | (1u8 << k)) >> j) % 2 == if j == k {
            1u8
        } else {
            (b >> j) % 2
        },
{
    assert(k < 8 && j < 8 ==> ((b | (1u8 << k)) >> j) % 2 == if j == k {
        1u8
    } else {
        (b >> j) % 2
    }) by (bit_vector);
}

/// Setting bit `k` of byte `idx` changes exactly stream bit `8 idx + k`.
proof fn lemma_set_bit(bytes: Seq<u8>, idx: int, k: u8, new: u8)
    requires
        0 <= idx < bytes.len(),
        k < 8,
        new == bytes[idx] | (1u8 << k),
    ensures
        forall|i: int|
            0 <= i < 8 * bytes.len() ==> #[trigger] bit_of(bytes.update(idx, new), i) == if i == 8 * idx + k {
                true
            } else {
                bit_of(bytes, i)
            },
{
    let updated = bytes.update(idx, new);
    assert forall|i: int| 0 <= i < 8 * bytes.len() implies #[trigger] bit_of(updated, i) == if i == 8 * idx + k {
        true
    } else {
        bit_of(bytes, i)
    } by {
        if i / 8 == idx {
            let j = (i % 8) as u8;
            lemma_or_bit(bytes[idx], k, j);
            lemma_u8_shr_is_div(new, j);
            lemma_u8_shr_is_div(bytes[idx], j);
        }
    }
}

/// A fresh zero byte adds eight clear stream bits.
pub(crate) proof fn lemma_push_zero(bytes: Seq<u8>)
    ensures
        forall|i: int|
            0 <= i < 8 * bytes.len() + 8 ==> #[trigger] bit_of(bytes.push(0u8), i) == if i < 8 * bytes.len() {
                bit_of(bytes, i)
            } else {
                false
            },
{
    assert forall|i: int| 0 <= i < 8 * bytes.len() + 8 implies #[trigger] bit_of(bytes.push(0u8), i) == if i < 8
        * bytes.len() {
        bit_of(bytes, i)
    } else {
        false
    } by {
        if i >= 8 * bytes.len() {
            assert(i / 8 == bytes.len());
            lemma_pow2_pos((i % 8) as nat);
        }
    }
}

/// The bytes of a protobuf base-128 varint: seven bits per byte, low
/// first, the high bit set on every byte but the last.
pub open spec fn uvarint_bytes(v: nat) -> Seq<u8>
    decreases v,
{
    if v < 128 {
        seq![v as u8]
    } else {
        seq![(v % 128 + 128) as u8] + uvarint_bytes(v / 128)
    }
}

/// The unsigned number that zigzag encoding gives a signed one:
/// non-negative values to even numbers, negative ones to odd numbers.
pub open spec fn zigzag_encode(v: int) -> nat {
    if v >= 0 {
        (2 * v) as nat
    } else {
        (-2 * v - 1) as nat
    }
}

/// Bits of Valve's `ubitvar`: a 6-bit head holding the low four bits and a
/// width tag, then the remaining bits in 0, 4, 8 or 28 bits.
pub open spec fn ubitvar_bits(v: nat) -> Seq<bool> {
    if v < 16 {
        value_bits(v, 6)
    } else if v < 256 {
        value_bits(v % 16 + 16, 6) + value_bits(v / 16, 4)
    } else if v < 4096 {
        value_bits(v % 16 + 32, 6) + value_bits(v / 16, 8)
    } else {
        value_bits(v % 16 + 48, 6) + value_bits(v / 16, 28)
    }
}

/// Bits of the field-path `ubitvar`: a unary width prefix, then the value
/// in 2, 4, 10, 17 or 31 bits.
pub open spec fn ubitvarfp_bits(v: nat) -> Seq<bool> {
    if v < 4 {
        seq![true] + value_bits(v, 2)
    } else if v < 16 {
        seq![false, true] + value_bits(v, 4)
    } else if v < 1024 {
        value_bits(4, 3) + value_bits(v, 10)
    } else if v < 131072 {
        value_bits(8, 4) + value_bits(v, 17)
    } else {
        value_bits(0, 4) + value_bits(v, 31)
    }
}

/// The stream bits of a sequence of bytes with one more byte.
proof fn lemma_stream_bits_push(bytes: Seq<u8>, b: u8)
    ensures
        stream_bits(bytes.push(b)) == stream_bits(bytes) + value_bits(b as nat, 8),
{
    let longer = bytes.push(b);
    lemma_byte_bits(longer, bytes.len() as int);
    assert forall|k: int| 0 <= k < 8 * longer.len() implies #[trigger] stream_bits(longer)[k] == (stream_bits(bytes)
        + value_bits(b as nat, 8))[k] by {
        if k < 8 * bytes.len() {
            assert(longer[k / 8] == bytes[k / 8]);
        } else {
            assert(stream_bits(longer).subrange(8 * bytes.len() as int, 8 * bytes.len() + 8 as int)[k - 8 * bytes.len()]
                == stream_bits(longer)[k]);
        }
    }
    assert(stream_bits(longer) =~= stream_bits(bytes) + value_bits(b as nat, 8));
}

/// A growable bit buffer, written least-significant bit first.
#[derive(Debug, Default)]
pub struct BitWriter {
    bytes: Vec<u8>,
    bit_position: usize,
}

impl BitWriter {
    /// The buffer holds exactly the bytes the written bits need, and every
    /// bit after the written ones is clear.
    pub closed spec fn wf(&self) -> bool {
        &&& self.bytes@.len() == bytes_for_bits(self.bit_position as nat)
        &&& forall|i: int|
            self.bit_position <= i < 8 * self.bytes@.len() ==> !#[trigger] bit_of(self.bytes@, i)
    }

    /// The bits written so far.
    pub closed spec fn spec_bits(&self) -> Seq<bool> {
        stream_bits(self.bytes@).take(self.bit_position as int)
    }

    /// An empty writer.
    pub fn new() -> (r: Self)
        ensures
            r.wf(),
            r.spec_bits() == Seq::<bool>::empty(),
    {
        let r = BitWriter { bytes: Vec::new(), bit_position: 0 };
        assert(r.spec_bits() =~= Seq::<bool>::empty());
        r
    }

    /// Number of bits written.
    pub fn bit_len(&self) -> (r: usize)
        requires
            self.wf(),
        ensures
            r == self.spec_bits().len(),
    {
        assert(8 * self.bytes@.len() >= self.bit_position);
        self.bit_position
    }

    /// Append one bit.
    pub fn push_bool(&mut self, value: bool)
        requires
            old(self).wf(),
            old(self).spec_bits().len() < usize::MAX,
        ensures
            final(self).wf(),
            final(self).spec_bits() == old(self).spec_bits().push(value),
    {
        let pos = self.bit_position;
        let byte_index = pos / 8;
        let bit_index = (pos % 8) as u8;
        let ghost before = self.bytes@;
        if byte_index == self.bytes.len() {
            self.bytes.push(0);
            proof {
                lemma_push_zero(before);
            }
        }
        let ghost mid = self.bytes@;
        if value {
            let b = self.bytes[byte_index];
            let nb = b | (1u8 << bit_index);
            self.bytes.set(byte_index, nb);
            proof {
                lemma_set_bit(mid, byte_index as int, bit_index, nb);
            }
        }
        self.bit_position = pos + 1;
        proof {
            assert(self.bytes@.len() == bytes_for_bits(self.bit_position as nat));
            assert forall|i: int| 0 <= i < self.bit_position implies #[trigger] stream_bits(self.bytes@)[i]
                == old(self).spec_bits().push(value)[i] by {
                if i < pos {
                    assert(stream_bits(before)[i] == bit_of(before, i));
                }
            }
            assert(self.spec_bits() =~= old(self).spec_bits().push(value));
        }
    }

    /// Append the `count` low bits of `value`, least significant first.
    pub fn push_bits(&mut self, value: u64, count: usize)
        requires
            old(self).wf(),
            count <= 64,
            old(self).spec_bits().len() + count <= usize::MAX,
        ensures
            final(self).wf(),
            final(self).spec_bits() == old(self).spec_bits() + value_bits(value as nat, count as nat),
    {
        let mut bit: usize = 0;
        while bit < count
            invariant
                self.wf(),
                bit <= count <= 64,
                old(self).spec_bits().len() + count <= usize::MAX,
                self.spec_bits() == old(self).spec_bits() + value_bits(value as nat, bit as nat),
            decreases count - bit,
        {
            proof {
                lemma_u64_shr_is_div(value, bit as u64);
            }
            let b = (value >> (bit as u64)) % 2 == 1;
            self.push_bool(b);
            bit = bit + 1;
            proof {
                assert(self.spec_bits() =~= old(self).spec_bits() + value_bits(value as nat, bit as nat));
            }
        }
    }

    /// Append whole bytes, each least significant bit first.
    pub fn push_bytes(&mut self, bytes: &[u8])
        requires
            old(self).wf(),
            old(self).spec_bits().len() + 8 * bytes@.len() <= usize::MAX,
        ensures
            final(self).wf(),
            final(self).spec_bits() == old(self).spec_bits() + stream_bits(bytes@),
    {
        let mut i: usize = 0;
        while i < bytes.len()
            invariant
                self.wf(),
                i <= bytes@.len(),
                old(self).spec_bits().len() + 8 * bytes@.len() <= usize::MAX,
                self.spec_bits() == old(self).spec_bits() + stream_bits(bytes@.take(i as int)),
            decreases bytes@.len() - i,
        {
            self.push_bits(bytes[i] as u64, 8);
            proof {
                crate::io::bits::lemma_byte_bits(bytes@, i as int);
                assert(stream_bits(bytes@.take(i + 1)) =~= stream_bits(bytes@.take(i as int)) + stream_bits(
                    bytes@,
                ).subrange(8 * i, 8 * i + 8)) by {
                    assert forall|k: int| 0 <= k < 8 * (i + 1) implies #[trigger] stream_bits(bytes@.take(i + 1))[k]
                        == (stream_bits(bytes@.take(i as int)) + stream_bits(bytes@).subrange(8 * i, 8 * i + 8))[k] by {
                        assert(bytes@.take(i + 1)[k / 8] == bytes@[k / 8]);
                    }
                }
            }
            i = i + 1;
        }
        proof {
            assert(bytes@.take(i as int) =~= bytes@);
        }
    }

    /// Append the bytes of `value` and a terminating zero byte.
    pub fn push_c_string(&mut self, value: &str)
        requires
            old(self).wf(),
            old(self).spec_bits().len() + 8 * value.spec_bytes().len() + 8 <= usize::MAX,
        ensures
            final(self).wf(),
            final(self).spec_bits() == old(self).spec_bits() + stream_bits(value.spec_bytes().push(0u8)),
    {
        let bytes = value.as_bytes();
        self.push_bytes(bytes);
        self.push_bits(0, 8);
        proof {
            lemma_stream_bits_push(bytes@, 0u8);
            assert(self.spec_bits() =~= old(self).spec_bits() + stream_bits(value.spec_bytes().push(0u8)));
        }
    }

    /// Append `value` as a protobuf varint.
    pub fn push_uvarint32(&mut self, value: u32)
        requires
            old(self).wf(),
            old(self).spec_bits().len() + 40 <= usize::MAX,
        ensures
            final(self).wf(),
            final(self).spec_bits() == old(self).spec_bits() + stream_bits(uvarint_bytes(value as nat)),
    {
        let mut rest = value;
        let ghost mut done: Seq<u8> = Seq::empty();
        proof {
            assert(Seq::<u8>::empty() + uvarint_bytes(value as nat) =~= uvarint_bytes(value as nat));
            assert(stream_bits(Seq::<u8>::empty()) =~= Seq::<bool>::empty());
            assert(old(self).spec_bits() + Seq::<bool>::empty() =~= old(self).spec_bits());
            vstd::arithmetic::power2::lemma2_to64();
            vstd::arithmetic::power2::lemma2_to64_rest();
            lemma_uvarint_len(value as nat, 5);
        }
        loop
            invariant
                self.wf(),
                uvarint_bytes(value as nat) == done + uvarint_bytes(rest as nat),
                done.len() + uvarint_bytes(rest as nat).len() <= 5,
                old(self).spec_bits().len() + 40 <= usize::MAX,
                self.spec_bits() == old(self).spec_bits() + stream_bits(done),
            decreases rest,
        {
            let low = rest % 128;
            let next = rest / 128;
            let byte: u8 = if next != 0 {
                (low + 128) as u8
            } else {
                low as u8
            };
            proof {
                lemma_stream_bits_push(done, byte);
                assert(uvarint_bytes(rest as nat)[0] == byte);
                if next != 0 {
                    assert(uvarint_bytes(rest as nat).drop_first() =~= uvarint_bytes(next as nat));
                }
            }
            self.push_bits(byte as u64, 8);
            proof {
                assert(uvarint_bytes(value as nat) =~= done.push(byte) + uvarint_bytes(rest as nat).drop_first());
                done = done.push(byte);
                assert(self.spec_bits() =~= old(self).spec_bits() + stream_bits(done));
            }
            if next == 0 {
                proof {
                    assert(uvarint_bytes(value as nat) =~= done);
                }
                return;
            }
            rest = next;
        }
    }

    /// Append `value` zigzag-encoded as a protobuf varint.
    pub fn push_varint32(&mut self, value: i32)
        requires
            old(self).wf(),
            old(self).spec_bits().len() + 40 <= usize::MAX,
        ensures
            final(self).wf(),
            final(self).spec_bits() == old(self).spec_bits() + stream_bits(uvarint_bytes(zigzag_encode(value as int))),
    {
        let encoded: u32 = if value >= 0 {
            (value as u32) * 2
        } else {
            ((-(value as i64) * 2) - 1) as u32
        };
        self.push_uvarint32(encoded);
    }

    /// Append `value` in Valve's `ubitvar` encoding.
    pub fn push_ubitvar(&mut self, value: u32)
        requires
            old(self).wf(),
            old(self).spec_bits().len() + 34 <= usize::MAX,
        ensures
            final(self).wf(),
            final(self).spec_bits() == old(self).spec_bits() + ubitvar_bits(value as nat),
    {
        if value < 16 {
            self.push_bits(value as u64, 6);
        } else if value < 256 {
            self.push_bits((value % 16 + 16) as u64, 6);
            self.push_bits((value / 16) as u64, 4);
        } else if value < 4096 {
            self.push_bits((value % 16 + 32) as u64, 6);
            self.push_bits((value / 16) as u64, 8);
        } else {
            self.push_bits((value % 16 + 48) as u64, 6);
            self.push_bits((value / 16) as u64, 28);
        }
        assert(self.spec_bits() =~= old(self).spec_bits() + ubitvar_bits(value as nat));
    }

    /// Append `value` in the field-path `ubitvar` encoding.
    pub fn push_ubitvarfp(&mut self, value: u32)
        requires
            old(self).wf(),
            old(self).spec_bits().len() + 35 <= usize::MAX,
        ensures
            final(self).wf(),
            final(self).spec_bits() == old(self).spec_bits() + ubitvarfp_bits(value as nat),
    {
        if value < 4 {
            self.push_bool(true);
            self.push_bits(value as u64, 2);
        } else if value < 16 {
            self.push_bool(false);
            self.push_bool(true);
            self.push_bits(value as u64, 4);
        } else if value < 1024 {
            self.push_bits(4, 3);
            self.push_bits(value as u64, 10);
        } else if value < 131072 {
            self.push_bits(8, 4);
            self.push_bits(value as u64, 17);
        } else {
            self.push_bits(0, 4);
            self.push_bits(value as u64, 31);
        }
        assert(self.spec_bits() =~= old(self).spec_bits() + ubitvarfp_bits(value as nat));
    }

    /// The written bytes; a final partial byte keeps its unwritten high bits clear.
    pub fn finish(self) -> (r: Vec<u8>)
        requires
            self.wf(),
        ensures
            stream_bits(r@).take(self.spec_bits().len() as int) == self.spec_bits(),
            r@.len() == bytes_for_bits(self.spec_bits().len()),
            forall|i: int| self.spec_bits().len() <= i < 8 * r@.len() ==> !#[trigger] stream_bits(r@)[i],
    {
        self.bytes
    }
}

/// A value below `128^k` takes at most `k` varint bytes.
pub proof fn lemma_uvarint_len(v: nat, k: nat)
    requires
        v < pow2(7 * k),
    ensures
        1 <= uvarint_bytes(v).len() <= if k == 0 {
            1
        } else {
            k
        },
    decreases v,
{
    vstd::arithmetic::power2::lemma2_to64();
    if v >= 128 {
        if k >= 1 {
            vstd::arithmetic::power2::lemma_pow2_adds(7 * ((k - 1) as nat), 7);
            assert(7 * ((k - 1) as nat) + 7 == 7 * k);
            assert(v / 128 < pow2(7 * ((k - 1) as nat))) by (nonlinear_arith)
                requires
                    v < pow2(7 * k),
                    pow2(7 * k) == pow2(7 * ((k - 1) as nat)) * 128,
            ;
            lemma_uvarint_len(v / 128, (k - 1) as nat);
            if k == 1 {
                assert(false);
            }
        } else {
            assert(false);
        }
    }
}

/// The middle of a concatenation is the part that was put there.
proof fn lemma_middle(prefix: Seq<bool>, mid: Seq<bool>, rest: Seq<bool>)
    ensures
        (prefix + mid + rest).subrange(prefix.len() as int, (prefix.len() + mid.len()) as int) == mid,
{
    assert((prefix + mid + rest).subrange(prefix.len() as int, (prefix.len() + mid.len()) as int) =~= mid);
}

/// Fixed-width fields read back as written: `count` bits of `value`,
/// wherever they stand in a stream, read as `value` modulo `2^count`.
pub proof fn lemma_fixed_round_trip(prefix: Seq<bool>, value: nat, count: nat, rest: Seq<bool>)
    ensures
        fixed_read(prefix + value_bits(value, count) + rest, prefix.len() as int, count)
            == (Decoded::Value { value: value % pow2(count), len: count }),
{
    lemma_middle(prefix, value_bits(value, count), rest);
    lemma_value_bits_roundtrip(value, count);
}

/// `ubitvar` values read back as written.
pub proof fn lemma_ubitvar_round_trip(prefix: Seq<bool>, value: nat, rest: Seq<bool>)
    requires
        value < pow2(32),
    ensures
        ubitvar_read(prefix + ubitvar_bits(value) + rest, prefix.len() as int) == (Decoded::Value {
            value,
            len: ubitvar_bits(value).len(),
        }),
{
    vstd::arithmetic::power2::lemma2_to64();
    let p = prefix.len();
    if value < 16 {
        lemma_fixed_round_trip(prefix, value, 6, rest);
        lemma_fixed_round_trip(prefix + value_bits(value, 6), 0, 0, rest);
        assert(prefix + value_bits(value, 6) + value_bits(0, 0) + rest =~= prefix + ubitvar_bits(value) + rest);
    } else {
        let (head, extra) = if value < 256 {
            (value % 16 + 16, 4nat)
        } else if value < 4096 {
            (value % 16 + 32, 8nat)
        } else {
            (value % 16 + 48, 28nat)
        };
        let all = prefix + value_bits(head, 6) + (value_bits(value / 16, extra) + rest);
        assert(prefix + ubitvar_bits(value) + rest =~= all);
        lemma_fixed_round_trip(prefix, head, 6, value_bits(value / 16, extra) + rest);
        lemma_fixed_round_trip(prefix + value_bits(head, 6), value / 16, extra, rest);
        assert(prefix + value_bits(head, 6) + value_bits(value / 16, extra) + rest =~= all);
        assert(value / 16 < pow2(extra));
        vstd::arithmetic::div_mod::lemma_small_mod(value / 16, pow2(extra));
    }
}

/// Field-path `ubitvar` values read back as written.
pub proof fn lemma_ubitvarfp_round_trip(prefix: Seq<bool>, value: nat, rest: Seq<bool>)
    requires
        value < pow2(31),
    ensures
        ubitvarfp_read(prefix + ubitvarfp_bits(value) + rest, prefix.len() as int) == (Decoded::Value {
            value,
            len: ubitvarfp_bits(value).len(),
        }),
{
    vstd::arithmetic::power2::lemma2_to64();
    let p = prefix.len() as int;
    let all = prefix + ubitvarfp_bits(value) + rest;
    let (marks, width) = if value < 4 {
        (seq![true], 2nat)
    } else if value < 16 {
        (seq![false, true], 4nat)
    } else if value < 1024 {
        (value_bits(4, 3), 10nat)
    } else if value < 131072 {
        (value_bits(8, 4), 17nat)
    } else {
        (value_bits(0, 4), 31nat)
    };
    assert(ubitvarfp_bits(value) =~= marks + value_bits(value, width));
    assert(all =~= (prefix + marks) + value_bits(value, width) + rest);
    lemma_fixed_round_trip(prefix + marks, value, width, rest);
    assert forall|i: int| 0 <= i < marks.len() implies all[p + i] == marks[i] by {
        assert(all[p + i] == ubitvarfp_bits(value)[i]);
    }
    assert(pow2(0) == 1 && pow2(1) == 2 && pow2(2) == 4 && pow2(3) == 8);
    if value >= 16 && value < 1024 {
        assert(marks[0] == ((4nat / pow2(0)) % 2 == 1));
        assert(marks[1] == ((4nat / pow2(1)) % 2 == 1));
        assert(marks[2] == ((4nat / pow2(2)) % 2 == 1));
        assert(!marks[0] && !marks[1] && marks[2]);
    } else if value >= 1024 && value < 131072 {
        assert(marks[0] == ((8nat / pow2(0)) % 2 == 1));
        assert(marks[1] == ((8nat / pow2(1)) % 2 == 1));
        assert(marks[2] == ((8nat / pow2(2)) % 2 == 1));
        assert(marks[3] == ((8nat / pow2(3)) % 2 == 1));
        assert(!marks[0] && !marks[1] && !marks[2] && marks[3]);
    } else if value >= 131072 {
        assert(marks[0] == ((0nat / pow2(0)) % 2 == 1));
        assert(marks[1] == ((0nat / pow2(1)) % 2 == 1));
        assert(marks[2] == ((0nat / pow2(2)) % 2 == 1));
        assert(marks[3] == ((0nat / pow2(3)) % 2 == 1));
        assert(!marks[0] && !marks[1] && !marks[2] && !marks[3]);
    }
    assert(value < pow2(width));
    vstd::arithmetic::div_mod::lemma_small_mod(value, pow2(width));
    reveal_with_fuel(ubitvarfp_from, 5);
}

/// Zigzag decoding undoes zigzag encoding.
pub proof fn lemma_zigzag_round_trip(v: int)
    ensures
        zigzag(zigzag_encode(v)) == v,
{
}

/// The varint bytes of `value` after `prefix`, read from there, give back
/// `value` scaled to the position.
proof fn lemma_varint_from_encoding(prefix: Seq<u8>, value: nat, rest: Seq<u8>, max_len: nat)
    requires
        prefix.len() + uvarint_bytes(value).len() <= max_len,
    ensures
        varint_from(prefix + uvarint_bytes(value) + rest, prefix.len(), max_len) == (VarintRead::Value {
            value: value * pow2(7 * prefix.len()),
            len: prefix.len() + uvarint_bytes(value).len(),
        }),
    decreases value,
{
    let i = prefix.len();
    let all = prefix + uvarint_bytes(value) + rest;
    assert(all[i as int] == uvarint_bytes(value)[0]);
    if value >= 128 {
        let first = (value % 128 + 128) as u8;
        let longer = prefix.push(first);
        assert(all =~= longer + uvarint_bytes(value / 128) + rest);
        lemma_varint_from_encoding(longer, value / 128, rest, max_len);
        vstd::arithmetic::power2::lemma_pow2_adds(7 * i, 7);
        vstd::arithmetic::power2::lemma2_to64();
        assert(7 * i + 7 == 7 * (i + 1));
        assert((value % 128) * pow2(7 * i) + (value / 128) * pow2(7 * (i + 1)) == value * pow2(7 * i)) by (nonlinear_arith)
            requires
                pow2(7 * (i + 1)) == pow2(7 * i) * 128,
        ;
    }
}

/// Protobuf varints of 32-bit values read back as written.
pub proof fn lemma_uvarint_round_trip(value: nat, rest: Seq<u8>)
    requires
        value < pow2(32),
    ensures
        varint_read(uvarint_bytes(value) + rest, 5) == (VarintRead::Value {
            value,
            len: uvarint_bytes(value).len(),
        }),
{
    vstd::arithmetic::power2::lemma2_to64();
    vstd::arithmetic::power2::lemma2_to64_rest();
    vstd::arithmetic::power2::lemma_pow2_strictly_increases(32, 35);
    lemma_uvarint_len(value, 5);
    let none = Seq::<u8>::empty();
    assert(none + uvarint_bytes(value) + rest =~= uvarint_bytes(value) + rest);
    lemma_varint_from_encoding(none, value, rest, 5);
    let z: nat = 7 * none.len();
    assert(z == 0);
    assert(pow2(z) == 1);
    assert(value * pow2(z) == value) by (nonlinear_arith)
        requires
            pow2(z) == 1,
    ;
}

} // verus!
