//! Least-significant-bit-first reader over a borrowed byte buffer.

use vstd::arithmetic::power2::{lemma_pow2_pos, lemma_pow2_unfold, pow2};
use vstd::bits::lemma_u8_shr_is_div;
use vstd::prelude::*;

use super::bits::{
    bits_value, bytes_at, cstring_from, cstring_stored, field, fixed_read, read_matches,
    stream_bits, ubitvar_extra_bits, ubitvar_read, after_prefix, ubitvarfp_from, ubitvarfp_read,
    ubitvarfp_width, varint_bits_read, varint_from, zigzag, CStringRead, Decoded, VarintRead,
    lemma_bits_value_bound, lemma_byte_bits, byte_bits_needed, lemma_varint_bound, bits_to_bytes, bytes_for_bits,
};
use crate::error::Error;

verus! {

/// A cursor over the bits of a borrowed byte buffer.
pub struct BitReader<'a> {
    data: &'a [u8],
    pos: usize,
}

impl<'a> BitReader<'a> {
    /// The position lies within the buffer, whose bit length fits a `usize`.
    pub closed spec fn wf(&self) -> bool {
        &&& self.data@.len() * 8 <= usize::MAX
        &&& self.pos <= self.data@.len() * 8
    }

    /// The bytes being read.
    pub closed spec fn spec_data(&self) -> Seq<u8> {
        self.data@
    }

    /// The current bit position.
    pub closed spec fn spec_pos(&self) -> nat {
        self.pos as nat
    }

    /// Every bit of the buffer, in stream order.
    pub open spec fn spec_bits(&self) -> Seq<bool> {
        stream_bits(self.spec_data())
    }

    /// Bits left between the position and the end of the buffer.
    pub open spec fn spec_remaining(&self) -> int {
        self.spec_bits().len() - self.spec_pos()
    }

    /// Facts that hold of every well-formed reader.
    pub proof fn lemma_valid(&self)
        requires
            self.wf(),
        ensures
            self.spec_pos() <= self.spec_bits().len(),
            self.spec_bits().len() <= usize::MAX,
    {
    }

    /// Start reading at bit 0 of `data`.
    pub fn new(data: &'a [u8]) -> (r: Self)
        requires
            data@.len() * 8 <= usize::MAX,
        ensures
            r.wf(),
            r.spec_data() == data@,
            r.spec_pos() == 0,
    {
        BitReader { data, pos: 0 }
    }

    /// Start reading at bit `pos` of `data`.
    pub(crate) fn starting_at(data: &'a [u8], pos: usize) -> (r: Self)
        requires
            data@.len() * 8 <= usize::MAX,
            pos <= data@.len() * 8,
        ensures
            r.wf(),
            r.spec_data() == data@,
            r.spec_pos() == pos,
    {
        BitReader { data, pos }
    }

    /// The borrowed buffer.
    pub fn data(&self) -> (r: &'a [u8])
        ensures
            r@ == self.spec_data(),
    {
        self.data
    }

    /// Current bit position from the start of the buffer.
    pub fn position(&self) -> (r: usize)
        ensures
            r == self.spec_pos(),
    {
        self.pos
    }

    /// Bits left to read.
    pub fn bits_remaining(&self) -> (r: usize)
        requires
            self.wf(),
        ensures
            r == self.spec_remaining(),
    {
        self.data.len() * 8 - self.pos
    }

    /// Read bit `i` of the buffer.
    fn bit_at(&self, i: usize) -> (r: bool)
        requires
            self.wf(),
            i < self.spec_bits().len(),
        ensures
            r == self.spec_bits()[i as int],
    {
        let byte = self.data[i / 8];
        let shift = (i % 8) as u8;
        proof {
            lemma_u8_shr_is_div(byte, shift);
        }
        (byte >> shift) % 2 == 1
    }

    /// Value of `count` bits starting at bit `start`, without moving.
    fn value_at(&self, start: usize, count: usize) -> (r: u64)
        requires
            self.wf(),
            count <= 64,
            start + count <= self.spec_bits().len(),
        ensures
            r == field(self.spec_bits(), start as int, count as int),
    {
        let ghost bits = self.spec_bits();
        let mut value: u64 = 0;
        let mut weight: u128 = 1;
        let mut k: usize = 0;
        proof {
            vstd::arithmetic::power2::lemma2_to64();
            assert(bits.subrange(start as int, start as int) =~= Seq::<bool>::empty());
        }
        while k < count
            invariant
                bits == self.spec_bits(),
                self.wf(),
                count <= 64,
                start + count <= bits.len(),
                k <= count,
                weight == pow2(k as nat),
                value == field(bits, start as int, k as int),
                value < weight,
            decreases count - k,
        {
            let ghost sub = bits.subrange(start as int, start + k + 1);
            proof {
                assert(sub.drop_last() =~= bits.subrange(start as int, start + k as int));
                lemma_pow2_unfold((k + 1) as nat);
                lemma_pow2_double_le_u64(k as nat);
            }
            let b = self.bit_at(start + k);
            if b {
                value = value + weight as u64;
            }
            weight = weight * 2;
            k = k + 1;
        }
        value
    }

    /// Read `count` bits as an unsigned little-endian value.
    pub fn read_bits(&mut self, count: usize) -> (r: Result<u64, Error>)
        requires
            old(self).wf(),
            count <= 64,
        ensures
            final(self).wf(),
            final(self).spec_data() == old(self).spec_data(),
            count <= old(self).spec_remaining() ==> r == Ok::<u64, Error>(
                field(old(self).spec_bits(), old(self).spec_pos() as int, count as int) as u64,
            ) && final(self).spec_pos() == old(self).spec_pos() + count,
            count > old(self).spec_remaining() ==> r == Err::<u64, Error>(
                Error::Overflow { needed: count, available: old(self).spec_remaining() as usize },
            ) && final(self).spec_pos() == old(self).spec_pos(),
    {
        let remaining = self.data.len() * 8 - self.pos;
        if count > remaining {
            return Err(Error::Overflow { needed: count, available: remaining });
        }
        let value = self.value_at(self.pos, count);
        self.pos = self.pos + count;
        Ok(value)
    }

    /// Read `count` bits without moving the position.
    pub fn peek_bits(&self, count: usize) -> (r: Result<u64, Error>)
        requires
            self.wf(),
            count <= 64,
        ensures
            count <= self.spec_remaining() ==> r == Ok::<u64, Error>(
                field(self.spec_bits(), self.spec_pos() as int, count as int) as u64,
            ),
            count > self.spec_remaining() ==> r == Err::<u64, Error>(
                Error::Overflow { needed: count, available: self.spec_remaining() as usize },
            ),
    {
        let remaining = self.data.len() * 8 - self.pos;
        if count > remaining {
            return Err(Error::Overflow { needed: count, available: remaining });
        }
        Ok(self.value_at(self.pos, count))
    }

    /// Advance past `count` bits.
    pub fn skip_bits(&mut self, count: usize) -> (r: Result<(), Error>)
        requires
            old(self).wf(),
        ensures
            final(self).wf(),
            final(self).spec_data() == old(self).spec_data(),
            count <= old(self).spec_remaining() ==> r == Ok::<(), Error>(()) && final(self).spec_pos()
                == old(self).spec_pos() + count,
            count > old(self).spec_remaining() ==> r == Err::<(), Error>(
                Error::Overflow { needed: count, available: old(self).spec_remaining() as usize },
            ) && final(self).spec_pos() == old(self).spec_pos(),
    {
        let remaining = self.data.len() * 8 - self.pos;
        if count > remaining {
            return Err(Error::Overflow { needed: count, available: remaining });
        }
        self.pos = self.pos + count;
        Ok(())
    }

    /// Read one bit.
    pub fn read_bool(&mut self) -> (r: Result<bool, Error>)
        requires
            old(self).wf(),
        ensures
            final(self).wf(),
            final(self).spec_data() == old(self).spec_data(),
            read_matches(fixed_read(old(self).spec_bits(), old(self).spec_pos() as int, 1), r, old(self).spec_pos(), final(self).spec_pos()),
            r matches Ok(x) ==> x == ((fixed_read(old(self).spec_bits(), old(self).spec_pos() as int, 1))->value == 1),
    {
        let ghost bits = self.spec_bits();
        let ghost pos = self.spec_pos();
        proof {
            if pos + 1 <= bits.len() {
                lemma_bits_value_bound(bits.subrange(pos as int, pos + 1 as int));
                vstd::arithmetic::power2::lemma2_to64();
            }
        }
        match self.read_bits(1) {
            Ok(v) => Ok(v == 1),
            Err(e) => Err(e),
        }
    }

    /// Read an 8-bit little-endian value.
    pub fn read_u8(&mut self) -> (r: Result<u8, Error>)
        requires
            old(self).wf(),
        ensures
            final(self).wf(),
            final(self).spec_data() == old(self).spec_data(),
            read_matches(fixed_read(old(self).spec_bits(), old(self).spec_pos() as int, 8), r, old(self).spec_pos(), final(self).spec_pos()),
            r matches Ok(x) ==> x == (fixed_read(old(self).spec_bits(), old(self).spec_pos() as int, 8))->value as u8,
    {
        let ghost bits = self.spec_bits();
        let ghost pos = self.spec_pos();
        let v = self.read_bits(8)?;
        proof {
            lemma_bits_value_bound(bits.subrange(pos as int, pos + 8 as int));
            vstd::arithmetic::power2::lemma2_to64();
        }
        Ok(v as u8)
    }

    /// Read a 16-bit little-endian value.
    pub fn read_u16(&mut self) -> (r: Result<u16, Error>)
        requires
            old(self).wf(),
        ensures
            final(self).wf(),
            final(self).spec_data() == old(self).spec_data(),
            read_matches(fixed_read(old(self).spec_bits(), old(self).spec_pos() as int, 16), r, old(self).spec_pos(), final(self).spec_pos()),
            r matches Ok(x) ==> x == (fixed_read(old(self).spec_bits(), old(self).spec_pos() as int, 16))->value as u16,
    {
        let ghost bits = self.spec_bits();
        let ghost pos = self.spec_pos();
        let v = self.read_bits(16)?;
        proof {
            lemma_bits_value_bound(bits.subrange(pos as int, pos + 16 as int));
            vstd::arithmetic::power2::lemma2_to64();
        }
        Ok(v as u16)
    }

    /// Read a 32-bit little-endian value.
    pub fn read_u32(&mut self) -> (r: Result<u32, Error>)
        requires
            old(self).wf(),
        ensures
            final(self).wf(),
            final(self).spec_data() == old(self).spec_data(),
            read_matches(fixed_read(old(self).spec_bits(), old(self).spec_pos() as int, 32), r, old(self).spec_pos(), final(self).spec_pos()),
            r matches Ok(x) ==> x == (fixed_read(old(self).spec_bits(), old(self).spec_pos() as int, 32))->value as u32,
    {
        let ghost bits = self.spec_bits();
        let ghost pos = self.spec_pos();
        let v = self.read_bits(32)?;
        proof {
            lemma_bits_value_bound(bits.subrange(pos as int, pos + 32 as int));
            vstd::arithmetic::power2::lemma2_to64();
        }
        Ok(v as u32)
    }

    /// Read a 64-bit little-endian value.
    pub fn read_u64(&mut self) -> (r: Result<u64, Error>)
        requires
            old(self).wf(),
        ensures
            final(self).wf(),
            final(self).spec_data() == old(self).spec_data(),
            read_matches(fixed_read(old(self).spec_bits(), old(self).spec_pos() as int, 64), r, old(self).spec_pos(), final(self).spec_pos()),
            r matches Ok(x) ==> x == (fixed_read(old(self).spec_bits(), old(self).spec_pos() as int, 64))->value as u64,
    {
        self.read_bits(64)
    }

    /// Read Valve's `ubitvar` variable-width integer.
    pub fn read_ubitvar(&mut self) -> (r: Result<u32, Error>)
        requires
            old(self).wf(),
        ensures
            final(self).wf(),
            final(self).spec_data() == old(self).spec_data(),
            read_matches(ubitvar_read(old(self).spec_bits(), old(self).spec_pos() as int), r, old(self).spec_pos(), final(self).spec_pos()),
            r matches Ok(x) ==> x as nat == (ubitvar_read(old(self).spec_bits(), old(self).spec_pos() as int))->value,
    {
        let ghost bits = self.spec_bits();
        let start = self.pos;
        proof {
            if start + 6 <= bits.len() {
                lemma_bits_value_bound(bits.subrange(start as int, start + 6));
                vstd::arithmetic::power2::lemma2_to64();
            }
        }
        let head = self.read_bits(6)?;
        let extra: usize = if head / 16 == 0 {
            0
        } else if head / 16 == 1 {
            4
        } else if head / 16 == 2 {
            8
        } else {
            28
        };
        assert(extra == ubitvar_extra_bits(head as nat / 16));
        match self.read_bits(extra) {
            Ok(high) => {
                proof {
                    lemma_bits_value_bound(bits.subrange(start + 6, start + 6 + extra));
                    vstd::arithmetic::power2::lemma2_to64();
                }
                Ok((head % 16 + high * 16) as u32)
            },
            Err(e) => {
                self.pos = start;
                Err(e)
            },
        }
    }

    /// Read the field-path flavour of `ubitvar`.
    pub fn read_ubitvarfp(&mut self) -> (r: Result<u32, Error>)
        requires
            old(self).wf(),
        ensures
            final(self).wf(),
            final(self).spec_data() == old(self).spec_data(),
            read_matches(ubitvarfp_read(old(self).spec_bits(), old(self).spec_pos() as int), r, old(self).spec_pos(), final(self).spec_pos()),
            r matches Ok(x) ==> x == (ubitvarfp_read(old(self).spec_bits(), old(self).spec_pos() as int))->value as u32,
    {
        let ghost bits = self.spec_bits();
        let start = self.pos;
        let mut i: usize = 0;
        let mut width: usize = 31;
        let mut found = false;
        while i < 4 && !found
            invariant
                self.wf(),
                self.spec_data() == old(self).spec_data(),
                bits == self.spec_bits(),
                start == old(self).spec_pos(),
                i <= 4,
                !found ==> self.spec_pos() == start + i && width == 31,
                !found ==> ubitvarfp_read(bits, start as int) == ubitvarfp_from(bits, start as int, i as nat),
                found ==> i < 4 && self.spec_pos() == start + i + 1 && width == ubitvarfp_width(i as nat),
                found ==> ubitvarfp_read(bits, start as int) == after_prefix(
                    (i + 1) as nat,
                    fixed_read(bits, start + i + 1, width as nat),
                ),
            decreases 4 - i + if found { 0int } else { 1int },
        {
            if self.pos >= self.data.len() * 8 {
                self.pos = start;
                return Err(Error::Overflow { needed: 1, available: 0 });
            }
            let b = self.bit_at(self.pos);
            self.pos = self.pos + 1;
            if b {
                width = if i == 0 {
                    2
                } else if i == 1 {
                    4
                } else if i == 2 {
                    10
                } else {
                    17
                };
                found = true;
            } else {
                i = i + 1;
            }
        }
        proof {
            if !found {
                assert(i == 4);
            }
        }
        match self.read_bits(width) {
            Ok(v) => {
                proof {
                    lemma_bits_value_bound(bits.subrange(self.spec_pos() - width, self.spec_pos() as int));
                    vstd::arithmetic::power2::lemma2_to64();
                }
                Ok(v as u32)
            },
            Err(e) => {
                self.pos = start;
                Err(e)
            },
        }
    }

    /// Read an unsigned protobuf varint of at most 5 bytes, keeping its low 32 bits.
    pub fn read_uvarint32(&mut self) -> (r: Result<u32, Error>)
        requires
            old(self).wf(),
        ensures
            final(self).wf(),
            final(self).spec_data() == old(self).spec_data(),
            read_matches(varint_bits_read(old(self).spec_bits(), old(self).spec_pos() as int, 5), r, old(self).spec_pos(), final(self).spec_pos()),
            r matches Ok(x) ==> x == ((varint_bits_read(old(self).spec_bits(), old(self).spec_pos() as int, 5))->value % pow2(32)) as u32,
    {
        proof {
            vstd::arithmetic::power2::lemma2_to64();
            lemma_varint_max(self.spec_bits(), self.spec_pos() as int, 5);
        }
        let raw = self.read_varint_raw(5)?;
        Ok((raw % 0x1_0000_0000) as u32)
    }

    /// Read an unsigned protobuf varint of at most 10 bytes, keeping its low 64 bits.
    pub fn read_uvarint64(&mut self) -> (r: Result<u64, Error>)
        requires
            old(self).wf(),
        ensures
            final(self).wf(),
            final(self).spec_data() == old(self).spec_data(),
            read_matches(varint_bits_read(old(self).spec_bits(), old(self).spec_pos() as int, 10), r, old(self).spec_pos(), final(self).spec_pos()),
            r matches Ok(x) ==> x == ((varint_bits_read(old(self).spec_bits(), old(self).spec_pos() as int, 10))->value % pow2(64)) as u64,
    {
        proof {
            vstd::arithmetic::power2::lemma2_to64();
            lemma_varint_max(self.spec_bits(), self.spec_pos() as int, 10);
        }
        let raw = self.read_varint_raw(10)?;
        Ok((raw % 0x1_0000_0000_0000_0000) as u64)
    }

    /// Read a zigzag-encoded signed varint of at most 5 bytes.
    pub fn read_varint32(&mut self) -> (r: Result<i32, Error>)
        requires
            old(self).wf(),
        ensures
            final(self).wf(),
            final(self).spec_data() == old(self).spec_data(),
            read_matches(varint_bits_read(old(self).spec_bits(), old(self).spec_pos() as int, 5), r, old(self).spec_pos(), final(self).spec_pos()),
            r matches Ok(x) ==> x == zigzag((varint_bits_read(old(self).spec_bits(), old(self).spec_pos() as int, 5))->value % pow2(32)) as i32,
    {
        proof {
            vstd::arithmetic::power2::lemma2_to64();
            lemma_varint_max(self.spec_bits(), self.spec_pos() as int, 5);
        }
        let raw = self.read_varint_raw(5)?;
        let n = (raw % 0x1_0000_0000) as u32;
        if n % 2 == 0 {
            Ok((n / 2) as i32)
        } else {
            Ok(-((n / 2) as i32) - 1)
        }
    }

    /// Read a zigzag-encoded signed varint of at most 10 bytes.
    pub fn read_varint64(&mut self) -> (r: Result<i64, Error>)
        requires
            old(self).wf(),
        ensures
            final(self).wf(),
            final(self).spec_data() == old(self).spec_data(),
            read_matches(varint_bits_read(old(self).spec_bits(), old(self).spec_pos() as int, 10), r, old(self).spec_pos(), final(self).spec_pos()),
            r matches Ok(x) ==> x == zigzag((varint_bits_read(old(self).spec_bits(), old(self).spec_pos() as int, 10))->value % pow2(64)) as i64,
    {
        proof {
            vstd::arithmetic::power2::lemma2_to64();
            lemma_varint_max(self.spec_bits(), self.spec_pos() as int, 10);
        }
        let raw = self.read_varint_raw(10)?;
        let n = (raw % 0x1_0000_0000_0000_0000) as u64;
        if n % 2 == 0 {
            Ok((n / 2) as i64)
        } else {
            Ok(-((n / 2) as i64) - 1)
        }
    }

    /// Byte `j` of the whole bytes from bit `start` on.
    fn byte_from(&self, start: usize, j: usize) -> (r: u8)
        requires
            self.wf(),
            start + 8 * j + 8 <= self.spec_bits().len(),
        ensures
            r == bytes_at(self.spec_bits(), start as int)[j as int],
            j < bytes_at(self.spec_bits(), start as int).len(),
    {
        let ghost bits = self.spec_bits();
        proof {
            assert((bits.len() - start) / 8 >= j + 1);
            vstd::arithmetic::power2::lemma2_to64();
        }
        if start % 8 == 0 {
            let i = start / 8 + j;
            proof {
                lemma_byte_bits(self.spec_data(), i as int);
                assert(8 * i == start + 8 * j);
            }
            self.data[i]
        } else {
            let v = self.value_at(start + 8 * j, 8);
            proof {
                lemma_bits_value_bound(bits.subrange(start + 8 * j, start + 8 * j + 8));
            }
            v as u8
        }
    }

    /// Fill `out` with the next `out.len()` whole bytes.
    pub fn read_bytes(&mut self, out: &mut [u8]) -> (r: Result<(), Error>)
        requires
            old(self).wf(),
        ensures
            final(self).wf(),
            final(self).spec_data() == old(self).spec_data(),
            final(out)@.len() == old(out)@.len(),
            8 * old(out)@.len() <= old(self).spec_remaining() ==> r == Ok::<(), Error>(())
                && final(out)@ == bytes_at(old(self).spec_bits(), old(self).spec_pos() as int).take(
                old(out)@.len() as int,
            ) && final(self).spec_pos() == old(self).spec_pos() + 8 * old(out)@.len(),
            8 * old(out)@.len() > old(self).spec_remaining() ==> r == Err::<(), Error>(
                Error::Overflow {
                    needed: byte_bits_needed(old(out)@.len()) as usize,
                    available: old(self).spec_remaining() as usize,
                },
            ) && final(out)@ == old(out)@ && final(self).spec_pos() == old(self).spec_pos(),
    {
        let ghost bits = self.spec_bits();
        let start = self.pos;
        let n = out.len();
        let remaining = self.data.len() * 8 - self.pos;
        if n > remaining / 8 {
            let needed = if n <= usize::MAX / 8 {
                n * 8
            } else {
                usize::MAX
            };
            return Err(Error::Overflow { needed, available: remaining });
        }
        let mut j: usize = 0;
        while j < n
            invariant
                self.wf(),
                self.spec_data() == old(self).spec_data(),
                self.spec_pos() == start,
                bits == self.spec_bits(),
                start == old(self).spec_pos(),
                n == out@.len(),
                n <= (bits.len() - start) / 8,
                j <= n,
                out@.len() == old(out)@.len(),
                forall|k: int| 0 <= k < j ==> out@[k] == bytes_at(bits, start as int)[k],
            decreases n - j,
        {
            let b = self.byte_from(start, j);
            out[j] = b;
            j = j + 1;
        }
        self.pos = start + 8 * n;
        assert(out@ =~= bytes_at(bits, start as int).take(n as int));
        Ok(())
    }

    /// Read `bit_count` bits into the first bytes of `out`, least significant
    /// bit first; a final partial byte keeps its bits in the low positions.
    pub fn read_bits_to_bytes(&mut self, out: &mut [u8], bit_count: usize) -> (r: Result<(), Error>)
        requires
            old(self).wf(),
            bytes_for_bits(bit_count as nat) <= old(out)@.len(),
        ensures
            final(self).wf(),
            final(self).spec_data() == old(self).spec_data(),
            bit_count <= old(self).spec_remaining() ==> r == Ok::<(), Error>(()) && final(out)@
                == bits_to_bytes(old(self).spec_bits(), old(self).spec_pos() as int, bit_count as nat)
                + old(out)@.skip(bytes_for_bits(bit_count as nat) as int) && final(self).spec_pos()
                == old(self).spec_pos() + bit_count,
            bit_count > old(self).spec_remaining() ==> r == Err::<(), Error>(
                Error::Overflow { needed: bit_count, available: old(self).spec_remaining() as usize },
            ) && final(out)@ == old(out)@ && final(self).spec_pos() == old(self).spec_pos(),
    {
        let ghost bits = self.spec_bits();
        let start = self.pos;
        let remaining = self.data.len() * 8 - self.pos;
        if bit_count > remaining {
            return Err(Error::Overflow { needed: bit_count, available: remaining });
        }
        let n = bit_count / 8 + if bit_count % 8 == 0 { 0 } else { 1 };
        assert(n == bytes_for_bits(bit_count as nat));
        let ghost target = bits_to_bytes(bits, start as int, bit_count as nat);
        let mut j: usize = 0;
        while j < n
            invariant
                self.wf(),
                self.spec_data() == old(self).spec_data(),
                self.spec_pos() == start,
                bits == self.spec_bits(),
                start == old(self).spec_pos(),
                start + bit_count <= bits.len(),
                n == bytes_for_bits(bit_count as nat),
                n <= old(out)@.len(),
                target == bits_to_bytes(bits, start as int, bit_count as nat),
                j <= n,
                out@ == target.take(j as int) + old(out)@.skip(j as int),
            decreases n - j,
        {
            let width: usize = if bit_count - 8 * j >= 8 {
                8
            } else {
                bit_count - 8 * j
            };
            let v = self.value_at(start + 8 * j, width);
            proof {
                lemma_bits_value_bound(bits.subrange(start + 8 * j, start + 8 * j + width));
                vstd::arithmetic::power2::lemma2_to64();
                if width < 8 {
                    vstd::arithmetic::power2::lemma_pow2_strictly_increases(width as nat, 8);
                }
            }
            out[j] = v as u8;
            proof {
                assert(out@ =~= target.take(j + 1) + old(out)@.skip(j + 1));
            }
            j = j + 1;
        }
        self.pos = start + bit_count;
        Ok(())
    }

    /// Read a null-terminated string into `buf`, returning its length.
    ///
    /// The terminator is consumed but not stored. A string that does not fit
    /// in `buf` is rejected rather than truncated.
    pub fn read_string_into(&mut self, buf: &mut [u8]) -> (r: Result<usize, Error>)
        requires
            old(self).wf(),
        ensures
            final(self).wf(),
            final(self).spec_data() == old(self).spec_data(),
            ({
                let bytes = bytes_at(old(self).spec_bits(), old(self).spec_pos() as int);
                let read = cstring_from(bytes, 0, old(buf)@.len());
                let stored = cstring_stored(read, old(buf)@.len());
                &&& final(buf)@ == bytes.take(stored as int) + old(buf)@.skip(stored as int)
                &&& match read {
                    CStringRead::Done { len } => r == Ok::<usize, Error>(len as usize)
                        && final(self).spec_pos() == old(self).spec_pos() + 8 * (len + 1),
                    CStringRead::Truncated { at } => r == Err::<usize, Error>(
                        Error::Overflow {
                            needed: 8,
                            available: (old(self).spec_remaining() - 8 * at) as usize,
                        },
                    ) && final(self).spec_pos() == old(self).spec_pos(),
                    CStringRead::TooLong => (r matches Err(Error::Parse { .. }))
                        && final(self).spec_pos() == old(self).spec_pos(),
                }
            }),
    {
        let ghost bits = self.spec_bits();
        let ghost bytes = bytes_at(bits, self.spec_pos() as int);
        let start = self.pos;
        let cap = buf.len();
        let mut j: usize = 0;
        loop
            invariant
                self.wf(),
                self.spec_data() == old(self).spec_data(),
                self.spec_pos() == start,
                bits == self.spec_bits(),
                start == old(self).spec_pos(),
                bytes == bytes_at(bits, start as int),
                cap == old(buf)@.len(),
                j <= cap,
                j <= bytes.len(),
                buf@ == bytes.take(j as int) + old(buf)@.skip(j as int),
                cstring_from(bytes, 0, cap as nat) == cstring_from(bytes, j as nat, cap as nat),
            decreases cap - j,
        {
            let remaining = self.data.len() * 8 - self.pos;
            if remaining / 8 <= j {
                proof {
                    assert(bytes.len() <= j);
                }
                return Err(Error::Overflow { needed: 8, available: remaining - 8 * j });
            }
            let b = self.byte_from(start, j);
            if b == 0 {
                self.pos = start + 8 * (j + 1);
                return Ok(j);
            }
            if j >= cap {
                return Err(Error::Parse { context: "string exceeds its buffer".to_string() });
            }
            buf[j] = b;
            proof {
                assert(buf@ =~= bytes.take(j + 1) + old(buf)@.skip(j + 1));
            }
            j = j + 1;
        }
    }

    /// Read a null-terminated string and decode it as UTF-8, replacing
    /// invalid sequences.
    pub fn read_string(&mut self) -> (r: Result<String, Error>)
        requires
            old(self).wf(),
        ensures
            final(self).wf(),
            final(self).spec_data() == old(self).spec_data(),
            ({
                let bytes = bytes_at(old(self).spec_bits(), old(self).spec_pos() as int);
                let read = cstring_from(bytes, 0, bytes.len());
                match read {
                    CStringRead::Done { len } => r is Ok && r->Ok_0@ == crate::text::utf8_lossy(
                        bytes.take(len as int),
                    ) && final(self).spec_pos() == old(self).spec_pos() + 8 * (len + 1),
                    CStringRead::Truncated { at } => r == Err::<String, Error>(
                        Error::Overflow {
                            needed: 8,
                            available: (old(self).spec_remaining() - 8 * at) as usize,
                        },
                    ) && final(self).spec_pos() == old(self).spec_pos(),
                    CStringRead::TooLong => false,
                }
            }),
    {
        let ghost bits = self.spec_bits();
        let ghost bytes = bytes_at(bits, self.spec_pos() as int);
        let start = self.pos;
        let total = (self.data.len() * 8 - self.pos) / 8;
        let mut out: Vec<u8> = Vec::new();
        let mut j: usize = 0;
        loop
            invariant
                self.wf(),
                self.spec_data() == old(self).spec_data(),
                self.spec_pos() == start,
                bits == self.spec_bits(),
                start == old(self).spec_pos(),
                bytes == bytes_at(bits, start as int),
                total == bytes.len(),
                j <= total,
                out@ == bytes.take(j as int),
                cstring_from(bytes, 0, total as nat) == cstring_from(bytes, j as nat, total as nat),
            decreases total - j,
        {
            if j >= total {
                let remaining = self.data.len() * 8 - self.pos;
                return Err(Error::Overflow { needed: 8, available: remaining - 8 * j });
            }
            let b = self.byte_from(start, j);
            if b == 0 {
                self.pos = start + 8 * (j + 1);
                return Ok(crate::text::lossy_string(out.as_slice()));
            }
            out.push(b);
            proof {
                assert(out@ =~= bytes.take(j + 1));
            }
            j = j + 1;
        }
    }

    /// Read a null-terminated string of at most `limit` bytes. The
    /// terminator is consumed but not kept. A longer string is refused with
    /// a limit error for `resource`, reporting one byte over the limit, and
    /// the position is left unchanged on any failure.
    pub fn read_string_limited(&mut self, limit: usize, resource: &'static str) -> (r: Result<Vec<u8>, Error>)
        requires
            old(self).wf(),
        ensures
            final(self).wf(),
            final(self).spec_data() == old(self).spec_data(),
            ({
                let bytes = bytes_at(old(self).spec_bits(), old(self).spec_pos() as int);
                match cstring_from(bytes, 0, limit as nat) {
                    CStringRead::Done { len } => (r matches Ok(v) && v@ == bytes.take(len as int))
                        && final(self).spec_pos() == old(self).spec_pos() + 8 * (len + 1),
                    CStringRead::Truncated { at } => r == Err::<Vec<u8>, Error>(
                        Error::Overflow {
                            needed: 8,
                            available: (old(self).spec_remaining() - 8 * at) as usize,
                        },
                    ) && final(self).spec_pos() == old(self).spec_pos(),
                    CStringRead::TooLong => r == Err::<Vec<u8>, Error>(
                        Error::LimitExceeded { resource, limit, actual: (limit + 1) as usize },
                    ) && final(self).spec_pos() == old(self).spec_pos(),
                }
            }),
    {
        let ghost bits = self.spec_bits();
        let ghost bytes = bytes_at(bits, self.spec_pos() as int);
        let start = self.pos;
        let mut out: Vec<u8> = Vec::new();
        let mut j: usize = 0;
        loop
            invariant
                self.wf(),
                self.spec_data() == old(self).spec_data(),
                self.spec_pos() == start,
                bits == self.spec_bits(),
                start == old(self).spec_pos(),
                bytes == bytes_at(bits, start as int),
                j <= limit,
                j <= bytes.len(),
                out@ == bytes.take(j as int),
                cstring_from(bytes, 0, limit as nat) == cstring_from(bytes, j as nat, limit as nat),
            decreases limit - j,
        {
            let remaining = self.data.len() * 8 - self.pos;
            if remaining / 8 <= j {
                proof {
                    assert(bytes.len() <= j);
                }
                return Err(Error::Overflow { needed: 8, available: remaining - 8 * j });
            }
            let b = self.byte_from(start, j);
            if b == 0 {
                self.pos = start + 8 * (j + 1);
                return Ok(out);
            }
            if j >= limit {
                proof {
                    assert(j < bytes.len());
                    assert(8 * bytes.len() <= bits.len());
                }
                return Err(Error::LimitExceeded { resource, limit, actual: limit + 1 });
            }
            out.push(b);
            proof {
                assert(out@ =~= bytes.take(j + 1));
            }
            j = j + 1;
        }
    }

    /// Pass over a null-terminated string and its terminator. Without a
    /// terminator before the end of the data the position is left unchanged.
    pub fn skip_string(&mut self) -> (r: Result<(), Error>)
        requires
            old(self).wf(),
        ensures
            final(self).wf(),
            final(self).spec_data() == old(self).spec_data(),
            ({
                let bytes = bytes_at(old(self).spec_bits(), old(self).spec_pos() as int);
                match cstring_from(bytes, 0, bytes.len()) {
                    CStringRead::Done { len } => r is Ok && final(self).spec_pos() == old(self).spec_pos()
                        + 8 * (len + 1),
                    CStringRead::Truncated { at } => r == Err::<(), Error>(
                        Error::Overflow {
                            needed: 8,
                            available: (old(self).spec_remaining() - 8 * at) as usize,
                        },
                    ) && final(self).spec_pos() == old(self).spec_pos(),
                    CStringRead::TooLong => false,
                }
            }),
    {
        let ghost bits = self.spec_bits();
        let ghost bytes = bytes_at(bits, self.spec_pos() as int);
        let start = self.pos;
        let total = (self.data.len() * 8 - self.pos) / 8;
        let mut j: usize = 0;
        loop
            invariant
                self.wf(),
                self.spec_data() == old(self).spec_data(),
                self.spec_pos() == start,
                bits == self.spec_bits(),
                start == old(self).spec_pos(),
                bytes == bytes_at(bits, start as int),
                total == bytes.len(),
                j <= total,
                cstring_from(bytes, 0, total as nat) == cstring_from(bytes, j as nat, total as nat),
            decreases total - j,
        {
            if j >= total {
                let remaining = self.data.len() * 8 - self.pos;
                return Err(Error::Overflow { needed: 8, available: remaining - 8 * j });
            }
            let b = self.byte_from(start, j);
            if b == 0 {
                self.pos = start + 8 * (j + 1);
                return Ok(());
            }
            j = j + 1;
        }
    }

    /// Read a base-128 varint of at most `max_len` bytes; its full value,
    /// without reduction, is returned.
    fn read_varint_raw(&mut self, max_len: usize) -> (r: Result<u128, Error>)
        requires
            old(self).wf(),
            1 <= max_len <= 10,
        ensures
            final(self).wf(),
            final(self).spec_data() == old(self).spec_data(),
            read_matches(varint_bits_read(old(self).spec_bits(), old(self).spec_pos() as int,
                max_len as nat), r, old(self).spec_pos(), final(self).spec_pos()),
            r matches Ok(x) ==> x == (varint_bits_read(old(self).spec_bits(), old(self).spec_pos() as int,
                max_len as nat))->value,
    {
        let ghost bits = self.spec_bits();
        let ghost bytes = bytes_at(bits, self.spec_pos() as int);
        let start = self.pos;
        let mut acc: u128 = 0;
        let mut weight: u128 = 1;
        let mut index: usize = 0;
        proof {
            vstd::arithmetic::power2::lemma2_to64();
        }
        loop
            invariant
                self.wf(),
                self.spec_data() == old(self).spec_data(),
                bits == self.spec_bits(),
                start == old(self).spec_pos(),
                bytes == bytes_at(bits, start as int),
                1 <= max_len <= 10,
                index < max_len,
                self.spec_pos() == start + 8 * index,
                weight == pow2(7 * index as nat),
                acc < weight,
                match varint_from(bytes, index as nat, max_len as nat) {
                    VarintRead::Value { value, len } => varint_from(bytes, 0, max_len as nat)
                        == VarintRead::Value { value: acc as nat + value, len },
                    other => varint_from(bytes, 0, max_len as nat) == other,
                },
            decreases max_len - index,
        {
            let remaining = self.data.len() * 8 - self.pos;
            if remaining < 8 {
                self.pos = start;
                return Err(Error::Overflow { needed: 8, available: remaining });
            }
            let byte = self.value_at(self.pos, 8);
            proof {
                let len = bits.len() - start;
                assert(len >= 8 * index + 8);
                assert(len / 8 >= index + 1);
                lemma_bits_value_bound(bits.subrange(self.spec_pos() as int, self.spec_pos() + 8 as int));
                vstd::arithmetic::power2::lemma2_to64();
                assert(bytes[index as int] == field(bits, start + 8 * index, 8) as u8);
            }
            self.pos = self.pos + 8;
            assert(bytes[index as int] == byte);
            proof {
                lemma_pow2_le_63((7 * index) as nat);
                assert(byte as u128 * weight <= 255 * 0x8000_0000_0000_0000) by (nonlinear_arith)
                    requires
                        byte <= 255,
                        weight <= 0x8000_0000_0000_0000,
                ;
            }
            if byte < 128 {
                return Ok(acc + byte as u128 * weight);
            }
            if index + 1 >= max_len {
                assert(varint_from(bytes, (index + 1) as nat, max_len as nat) == VarintRead::TooLong);
                assert(varint_from(bytes, index as nat, max_len as nat) == VarintRead::TooLong);
                self.pos = start;
                return Err(Error::Parse { context: "malformed varint".to_string() });
            }
            proof {
                assert(acc + (byte - 128) as u128 * weight < 128 * weight) by (nonlinear_arith)
                    requires
                        byte >= 128,
                        byte <= 255,
                        acc < weight,
                ;
            }
            proof {
                vstd::arithmetic::power2::lemma_pow2_adds((7 * index) as nat, 7);
                assert(7 * index as nat + 7 == 7 * (index + 1) as nat);
            }
            acc = acc + (byte - 128) as u128 * weight;
            weight = weight * 128;
            index = index + 1;
        }
    }
}

/// A varint of at most 10 bytes is worth less than `2^70`.
proof fn lemma_varint_max(bits: Seq<bool>, pos: int, max_len: nat)
    requires
        max_len <= 10,
    ensures
        varint_bits_read(bits, pos, max_len) matches Decoded::Value { value, len } ==> value
            < 0x40_0000_0000_0000_0000,
{
    let bytes = bytes_at(bits, pos);
    lemma_varint_bound(bytes, 0, max_len);
    if let VarintRead::Value { value, len } = varint_from(bytes, 0, max_len) {
        vstd::arithmetic::power2::lemma_pow2_adds(64, 6);
        vstd::arithmetic::power2::lemma2_to64();
        if 7 * len < 70 {
            vstd::arithmetic::power2::lemma_pow2_strictly_increases(7 * len, 70);
        }
    }
}

/// `2^e` is at most `2^63` for `e <= 63`.
proof fn lemma_pow2_le_63(e: nat)
    requires
        e <= 63,
    ensures
        pow2(e) <= 0x8000_0000_0000_0000,
{
    vstd::arithmetic::power2::lemma2_to64_rest();
    if e < 63 {
        vstd::arithmetic::power2::lemma_pow2_strictly_increases(e, 63);
    }
}

/// Doubling `2^k` stays within `2^64` for `k < 64`.
pub proof fn lemma_pow2_double_le_u64(k: nat)
    requires
        k < 64,
    ensures
        2 * pow2(k) <= 0x1_0000_0000_0000_0000,
{
    lemma_pow2_unfold(k + 1);
    vstd::arithmetic::power2::lemma2_to64();
    if k + 1 < 64 {
        vstd::arithmetic::power2::lemma_pow2_strictly_increases(k + 1, 64);
    }
}

} // verus!
