//! Byte-aligned reader over a borrowed buffer.

use vstd::prelude::*;

use super::bit_reader::BitReader;
use super::bits::{
    byte_bits_needed, bytes_at, field, le_value, lemma_bytes_at_aligned, lemma_stream_bits_subrange,
    stream_bits, varint_bits_read, varint_read, zigzag, VarintRead,
};
use crate::error::Error;

verus! {

/// How reading a varint from bytes ends: the move it makes and the error it
/// gives. The value itself is stated beside this.
pub open spec fn byte_varint_matches<T>(
    bytes: Seq<u8>,
    max_len: nat,
    r: Result<T, Error>,
    pos0: nat,
    pos1: nat,
) -> bool {
    match varint_read(bytes, max_len) {
        VarintRead::Value { value, len } => r is Ok && pos1 == pos0 + len,
        VarintRead::Truncated { at } => r == Err::<T, Error>(
            Error::Overflow { needed: 8, available: (8 * (bytes.len() - at)) as usize },
        ) && pos1 == pos0,
        VarintRead::TooLong => (r matches Err(Error::Parse { .. })) && pos1 == pos0,
    }
}

/// A cursor over the bytes of a borrowed buffer.
pub struct ByteReader<'a> {
    data: &'a [u8],
    pos: usize,
}

impl<'a> ByteReader<'a> {
    /// The position lies within the buffer, whose bit length fits a `usize`.
    pub closed spec fn wf(&self) -> bool {
        &&& self.data@.len() * 8 <= usize::MAX
        &&& self.pos <= self.data@.len()
    }

    /// The bytes being read.
    pub closed spec fn spec_data(&self) -> Seq<u8> {
        self.data@
    }

    /// The current byte position.
    pub closed spec fn spec_pos(&self) -> nat {
        self.pos as nat
    }

    /// The bytes not read yet.
    pub open spec fn spec_rest(&self) -> Seq<u8> {
        self.spec_data().skip(self.spec_pos() as int)
    }

    /// Facts that hold of every well-formed reader.
    pub proof fn lemma_valid(&self)
        requires
            self.wf(),
        ensures
            self.spec_pos() <= self.spec_data().len(),
            self.spec_data().len() * 8 <= usize::MAX,
    {
    }

    /// Start reading at byte 0 of `data`.
    pub fn new(data: &'a [u8]) -> (r: Self)
        requires
            data@.len() * 8 <= usize::MAX,
        ensures
            r.wf(),
            r.spec_data() == data@,
            r.spec_pos() == 0,
    {
        ByteReader { data, pos: 0 }
    }

    /// Current byte position from the start of the buffer.
    pub fn position(&self) -> (r: usize)
        ensures
            r == self.spec_pos(),
    {
        self.pos
    }

    /// Bytes left to read.
    pub fn remaining(&self) -> (r: usize)
        requires
            self.wf(),
        ensures
            r == self.spec_rest().len(),
    {
        self.data.len() - self.pos
    }

    /// Whether every byte has been read.
    pub fn is_empty(&self) -> (r: bool)
        requires
            self.wf(),
        ensures
            r == (self.spec_rest().len() == 0),
    {
        self.pos >= self.data.len()
    }

    /// Borrow the next `count` bytes.
    pub fn read_bytes(&mut self, count: usize) -> (r: Result<&'a [u8], Error>)
        requires
            old(self).wf(),
        ensures
            final(self).wf(),
            final(self).spec_data() == old(self).spec_data(),
            count <= old(self).spec_rest().len() ==> r is Ok && r->Ok_0@ == old(self).spec_rest().take(
                count as int,
            ) && final(self).spec_pos() == old(self).spec_pos() + count,
            count > old(self).spec_rest().len() ==> r == Err::<&'a [u8], Error>(
                Error::Overflow {
                    needed: byte_bits_needed(count as nat) as usize,
                    available: (8 * old(self).spec_rest().len()) as usize,
                },
            ) && final(self).spec_pos() == old(self).spec_pos(),
    {
        let remaining = self.data.len() - self.pos;
        if count > remaining {
            let needed = if count <= usize::MAX / 8 {
                count * 8
            } else {
                usize::MAX
            };
            return Err(Error::Overflow { needed, available: remaining * 8 });
        }
        let start = self.pos;
        let bytes = &self.data[start..start + count];
        self.pos = start + count;
        assert(bytes@ =~= old(self).spec_rest().take(count as int));
        Ok(bytes)
    }

    /// Read `count` bytes as one little-endian value.
    fn read_le(&mut self, count: usize) -> (r: Result<u64, Error>)
        requires
            old(self).wf(),
            count <= 8,
        ensures
            final(self).wf(),
            final(self).spec_data() == old(self).spec_data(),
            count <= old(self).spec_rest().len() ==> r == Ok::<u64, Error>(
                le_value(old(self).spec_rest().take(count as int)) as u64,
            ) && final(self).spec_pos() == old(self).spec_pos() + count,
            count > old(self).spec_rest().len() ==> r == Err::<u64, Error>(
                Error::Overflow {
                    needed: (8 * count) as usize,
                    available: (8 * old(self).spec_rest().len()) as usize,
                },
            ) && final(self).spec_pos() == old(self).spec_pos(),
    {
        let remaining = self.data.len() - self.pos;
        if count > remaining {
            return Err(Error::Overflow { needed: count * 8, available: remaining * 8 });
        }
        let start = self.pos;
        let mut bits = BitReader::starting_at(self.data, 8 * start);
        let v = bits.read_bits(8 * count);
        proof {
            lemma_stream_bits_subrange(self.data@, start as int, (start + count) as int);
            assert(self.data@.subrange(start as int, (start + count) as int) =~= old(self).spec_rest().take(
                count as int,
            ));
        }
        match v {
            Ok(value) => {
                self.pos = start + count;
                Ok(value)
            },
            Err(e) => Err(e),
        }
    }

    /// Read one byte.
    pub fn read_u8(&mut self) -> (r: Result<u8, Error>)
        requires
            old(self).wf(),
        ensures
            final(self).wf(),
            final(self).spec_data() == old(self).spec_data(),
            1 <= old(self).spec_rest().len() ==> r == Ok::<u8, Error>(old(self).spec_rest()[0])
                && final(self).spec_pos() == old(self).spec_pos() + 1,
            1 > old(self).spec_rest().len() ==> r == Err::<u8, Error>(
                Error::Overflow { needed: 8, available: 0 },
            ) && final(self).spec_pos() == old(self).spec_pos(),
    {
        if self.pos >= self.data.len() {
            return Err(Error::Overflow { needed: 8, available: 0 });
        }
        let b = self.data[self.pos];
        self.pos = self.pos + 1;
        Ok(b)
    }

    /// Read a little-endian `u16`.
    pub fn read_u16(&mut self) -> (r: Result<u16, Error>)
        requires
            old(self).wf(),
        ensures
            final(self).wf(),
            final(self).spec_data() == old(self).spec_data(),
            2 <= old(self).spec_rest().len() ==> r == Ok::<u16, Error>(
                le_value(old(self).spec_rest().take(2)) as u16,
            ) && final(self).spec_pos() == old(self).spec_pos() + 2,
            2 > old(self).spec_rest().len() ==> r == Err::<u16, Error>(
                Error::Overflow { needed: 16, available: (8 * old(self).spec_rest().len()) as usize },
            ) && final(self).spec_pos() == old(self).spec_pos(),
    {
        proof {
            if 2 <= old(self).spec_rest().len() {
                super::bits::lemma_bits_value_bound(stream_bits(old(self).spec_rest().take(2)));
                vstd::arithmetic::power2::lemma2_to64();
            }
        }
        let v = self.read_le(2)?;
        Ok(v as u16)
    }

    /// Read a little-endian `u32`.
    pub fn read_u32(&mut self) -> (r: Result<u32, Error>)
        requires
            old(self).wf(),
        ensures
            final(self).wf(),
            final(self).spec_data() == old(self).spec_data(),
            4 <= old(self).spec_rest().len() ==> r == Ok::<u32, Error>(
                le_value(old(self).spec_rest().take(4)) as u32,
            ) && final(self).spec_pos() == old(self).spec_pos() + 4,
            4 > old(self).spec_rest().len() ==> r == Err::<u32, Error>(
                Error::Overflow { needed: 32, available: (8 * old(self).spec_rest().len()) as usize },
            ) && final(self).spec_pos() == old(self).spec_pos(),
    {
        proof {
            if 4 <= old(self).spec_rest().len() {
                super::bits::lemma_bits_value_bound(stream_bits(old(self).spec_rest().take(4)));
                vstd::arithmetic::power2::lemma2_to64();
            }
        }
        let v = self.read_le(4)?;
        Ok(v as u32)
    }

    /// Read a little-endian two's-complement `i32`.
    pub fn read_i32(&mut self) -> (r: Result<i32, Error>)
        requires
            old(self).wf(),
        ensures
            final(self).wf(),
            final(self).spec_data() == old(self).spec_data(),
            4 <= old(self).spec_rest().len() ==> r == Ok::<i32, Error>(
                le_value(old(self).spec_rest().take(4)) as u32 as i32,
            ) && final(self).spec_pos() == old(self).spec_pos() + 4,
            4 > old(self).spec_rest().len() ==> r == Err::<i32, Error>(
                Error::Overflow { needed: 32, available: (8 * old(self).spec_rest().len()) as usize },
            ) && final(self).spec_pos() == old(self).spec_pos(),
    {
        let v = self.read_u32()?;
        Ok(v as i32)
    }

    /// Read a little-endian `u64`.
    pub fn read_u64(&mut self) -> (r: Result<u64, Error>)
        requires
            old(self).wf(),
        ensures
            final(self).wf(),
            final(self).spec_data() == old(self).spec_data(),
            8 <= old(self).spec_rest().len() ==> r == Ok::<u64, Error>(
                le_value(old(self).spec_rest().take(8)) as u64,
            ) && final(self).spec_pos() == old(self).spec_pos() + 8,
            8 > old(self).spec_rest().len() ==> r == Err::<u64, Error>(
                Error::Overflow { needed: 64, available: (8 * old(self).spec_rest().len()) as usize },
            ) && final(self).spec_pos() == old(self).spec_pos(),
    {
        self.read_le(8)
    }

    /// Read an unsigned protobuf varint of at most 5 bytes, keeping its low 32 bits.
    pub fn read_uvarint32(&mut self) -> (r: Result<u32, Error>)
        requires
            old(self).wf(),
        ensures
            final(self).wf(),
            final(self).spec_data() == old(self).spec_data(),
            byte_varint_matches(old(self).spec_rest(), 5, r, old(self).spec_pos(), final(self).spec_pos()),
            r matches Ok(x) ==> x == super::bits::low_u32(varint_read(old(self).spec_rest(), 5)->value),
    {
        let start = self.pos;
        let mut bits = BitReader::starting_at(self.data, 8 * start);
        proof {
            lemma_bytes_at_aligned(self.data@, start as int);
        }
        let res = bits.read_uvarint32();
        let ghost bytes = self.data@.skip(start as int);
        proof {
            assert(stream_bits(self.data@).len() - 8 * start == 8 * bytes.len());
            super::bits::lemma_varint_bound(bytes, 0, 5);
        }
        match res {
            Ok(v) => {
                self.pos = bits.position() / 8;
                proof {
                    match varint_read(bytes, 5) {
                        VarintRead::Value { value, len } => {
                            assert((8 * start + 8 * len) / 8 == start + len);
                            assert(self.spec_pos() == start + len);
                        },
                        _ => {
                            assert(false);
                        },
                    }
                }
                Ok(v)
            },
            Err(e) => {
                proof {
                    match varint_read(bytes, 5) {
                        VarintRead::Truncated { at } => {
                            assert(bits.spec_remaining() - 8 * at == 8 * (bytes.len() - at));

                        },
                        _ => {},
                    }
                }
                Err(e)
            },
        }
    }
}

} // verus!
